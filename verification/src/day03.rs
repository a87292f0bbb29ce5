//! Corrupted memory: the multiplications that can still be read in it, and
//! the switches that turn them on and off.

use crate::pattern::{capture_every, every_capture, group_views, match_views};
use crate::text::{chars_of, is_i32, numeral_value, read_i32};
use vstd::prelude::*;

verus! {

/// An instruction read from memory: switch on, switch off, or multiply two
/// numbers.
pub enum Operator {
    Do,
    Dont,
    Mult(i32, i32),
}

/// The form of a multiplication: "mul(", two numbers of one to three digits
/// with a comma between them, and ")".
pub open spec fn mult_pattern() -> Seq<char> {
    "mul\\((\\d{1,3}),(\\d{1,3})\\)"@
}

/// The form of an instruction: a multiplication, "do()" or "don't()".
pub open spec fn operator_pattern() -> Seq<char> {
    "mul\\((\\d{1,3}),(\\d{1,3})\\)|do\\(\\)()()|don't\\(\\)()()"@
}

/// The texts of the groups that took part in a match, in their order.
pub open spec fn taking_part(groups: Seq<Option<Seq<char>>>) -> Seq<Seq<char>>
    decreases groups.len(),
{
    if groups.len() == 0 {
        Seq::empty()
    } else {
        let before = taking_part(groups.drop_last());
        match groups.last() {
            Some(found) => before.push(found),
            None => before,
        }
    }
}

/// The instruction that one match of `operator_pattern` or `mult_pattern`
/// stands for: by its whole text a switch, or else the multiplication of the
/// two groups that took part in it. `None` where these are not two numbers.
pub open spec fn read_operator(groups: Seq<Option<Seq<char>>>) -> Option<Operator> {
    if groups.len() == 0 || groups[0] is None {
        None
    } else {
        let parts = taking_part(groups.skip(1));
        if parts.len() != 2 {
            None
        } else if groups[0]->0 == "do()"@ {
            Some(Operator::Do)
        } else if groups[0]->0 == "don't()"@ {
            Some(Operator::Dont)
        } else if is_i32(parts[0]) && is_i32(parts[1]) {
            Some(Operator::Mult(numeral_value(parts[0]) as i32, numeral_value(parts[1]) as i32))
        } else {
            None
        }
    }
}

/// Every match stands for an instruction.
pub open spec fn all_operators(matches: Seq<Seq<Option<Seq<char>>>>) -> bool {
    forall|i: int| 0 <= i < matches.len() ==> read_operator(#[trigger] matches[i]) is Some
}

/// The instructions that the matches stand for.
pub open spec fn operators_of(matches: Seq<Seq<Option<Seq<char>>>>) -> Seq<Operator> {
    Seq::new(matches.len(), |i: int| read_operator(matches[i])->0)
}

/// The state after the instructions `ops`: whether multiplications count,
/// and the sum of the products that counted. At first they count.
pub open spec fn run(ops: Seq<Operator>) -> (bool, int)
    decreases ops.len(),
{
    if ops.len() == 0 {
        (true, 0)
    } else {
        let (on, acc) = run(ops.drop_last());
        match ops.last() {
            Operator::Do => (true, acc),
            Operator::Dont => (false, acc),
            Operator::Mult(l, r) => if on {
                (on, acc + l * r)
            } else {
                (on, acc)
            },
        }
    }
}

/// 32-bit arithmetic can follow the instructions `ops`: every product that
/// counts and every sum on the way fits.
pub open spec fn runs_in_i32(ops: Seq<Operator>) -> bool
    decreases ops.len(),
{
    if ops.len() == 0 {
        true
    } else {
        let (on, acc) = run(ops.drop_last());
        runs_in_i32(ops.drop_last()) && match ops.last() {
            Operator::Mult(l, r) => on ==> i32::MIN <= l * r <= i32::MAX && i32::MIN <= acc + l * r
                <= i32::MAX,
            _ => true,
        }
    }
}

/// Whether `chars` spell `word`.
pub fn spells(chars: &Vec<char>, word: &str) -> (b: bool)
    ensures
        b == (chars@ == word@),
{
    let letters = chars_of(word);
    if letters.len() != chars.len() {
        return false;
    }
    let mut i: usize = 0;
    while i < chars.len()
        invariant
            letters.len() == chars.len(),
            letters@ == word@,
            i <= chars.len(),
            forall|k: int| 0 <= k < i ==> chars[k] == letters[k],
        decreases chars.len() - i,
    {
        if chars[i] != letters[i] {
            return false;
        }
        i += 1;
    }
    proof {
        assert(chars@ =~= letters@);
    }
    true
}

/// The instruction that one match stands for.
pub fn operator_from(groups: &Vec<Option<Vec<char>>>) -> (op: Option<Operator>)
    ensures
        op == read_operator(group_views(groups@)),
{
    if groups.len() == 0 {
        return None;
    }
    let ghost views = group_views(groups@);
    let ghost rest = views.skip(1);
    let mut parts: Vec<&Vec<char>> = Vec::new();
    let mut i: usize = 1;
    assert(rest.take(0) =~= Seq::<Option<Seq<char>>>::empty());
    while i < groups.len()
        invariant
            views == group_views(groups@),
            rest == views.skip(1),
            1 <= i <= groups.len(),
            parts.len() == taking_part(rest.take(i - 1)).len(),
            forall|k: int| 0 <= k < parts.len() ==> (#[trigger] parts[k])@ == taking_part(
                rest.take(i - 1),
            )[k],
        decreases groups.len() - i,
    {
        proof {
            assert(rest.take(i as int).drop_last() =~= rest.take(i - 1));
            assert(rest.take(i as int).last() == views[i as int]);
        }
        if let Some(found) = &groups[i] {
            parts.push(found);
        }
        i += 1;
    }
    proof {
        assert(rest.take(i - 1) =~= rest);
    }
    if parts.len() != 2 {
        return None;
    }
    match &groups[0] {
        None => None,
        Some(group) => {
            if spells(group, "do()") {
                Some(Operator::Do)
            } else if spells(group, "don't()") {
                Some(Operator::Dont)
            } else {
                match (read_i32(parts[0]), read_i32(parts[1])) {
                    (Some(l), Some(r)) => Some(Operator::Mult(l, r)),
                    _ => None,
                }
            }
        },
    }
}

/// The instructions that the matches stand for, if each stands for one.
pub fn operators_from(matches: &Vec<Vec<Option<Vec<char>>>>) -> (ops: Option<Vec<Operator>>)
    ensures
        ops is Some <==> all_operators(match_views(matches@)),
        ops is Some ==> ops->0@ == operators_of(match_views(matches@)),
{
    let ghost views = match_views(matches@);
    let mut ops: Vec<Operator> = Vec::new();
    let mut i: usize = 0;
    while i < matches.len()
        invariant
            views == match_views(matches@),
            i <= matches.len(),
            ops.len() == i,
            forall|k: int| 0 <= k < i ==> read_operator(#[trigger] views[k]) == Some(ops[k]),
        decreases matches.len() - i,
    {
        assert(views[i as int] == group_views(matches[i as int]@));
        match operator_from(&matches[i]) {
            Some(op) => ops.push(op),
            None => {
                return None;
            },
        }
        i += 1;
    }
    proof {
        assert(ops@ =~= operators_of(views));
    }
    Some(ops)
}

/// The sum of the products that count among the instructions `ops`, if
/// 32-bit arithmetic can compute it.
pub fn tally(ops: &Vec<Operator>) -> (total: Option<i32>)
    ensures
        total is Some <==> runs_in_i32(ops@),
        total is Some ==> total->0 == run(ops@).1,
{
    let mut on_off = true;
    let mut acc: i32 = 0;
    let mut i: usize = 0;
    assert(ops@.take(0) =~= Seq::<Operator>::empty());
    while i < ops.len()
        invariant
            i <= ops.len(),
            runs_in_i32(ops@.take(i as int)),
            run(ops@.take(i as int)) == (on_off, acc as int),
        decreases ops.len() - i,
    {
        proof {
            assert(ops@.take(i + 1).drop_last() =~= ops@.take(i as int));
            assert(ops@.take(i + 1).last() == ops[i as int]);
        }
        match ops[i] {
            Operator::Do => {
                on_off = true;
            },
            Operator::Dont => {
                on_off = false;
            },
            Operator::Mult(l, r) => {
                if on_off {
                    let sum = match l.checked_mul(r) {
                        Some(product) => acc.checked_add(product),
                        None => None,
                    };
                    match sum {
                        Some(sum) => {
                            acc = sum;
                        },
                        None => {
                            proof {
                                if runs_in_i32(ops@) {
                                    lemma_runs_prefix(ops@, i + 1);
                                }
                            }
                            return None;
                        },
                    }
                }
            },
        }
        i += 1;
    }
    proof {
        assert(ops@.take(i as int) =~= ops@);
    }
    Some(acc)
}

/// Arithmetic that can follow all the instructions can follow the first `n`.
pub proof fn lemma_runs_prefix(ops: Seq<Operator>, n: int)
    requires
        0 <= n <= ops.len(),
        runs_in_i32(ops),
    ensures
        runs_in_i32(ops.take(n)),
    decreases ops.len() - n,
{
    if n < ops.len() {
        lemma_runs_prefix(ops, n + 1);
        assert(ops.take(n + 1).drop_last() =~= ops.take(n));
    } else {
        assert(ops.take(n) =~= ops);
    }
}

/// The multiplications in `input`: what `mult_pattern` finds there.
pub open spec fn mults_in(input: Seq<char>) -> Option<Seq<Seq<Option<Seq<char>>>>> {
    every_capture(mult_pattern(), input)
}

/// The instructions in `input`: what `operator_pattern` finds there.
pub open spec fn operators_in(input: Seq<char>) -> Option<Seq<Seq<Option<Seq<char>>>>> {
    every_capture(operator_pattern(), input)
}

/// The search `found` gave instructions that 32-bit arithmetic can follow.
pub open spec fn can_tally(found: Option<Seq<Seq<Option<Seq<char>>>>>) -> bool {
    found is Some && all_operators(found->0) && runs_in_i32(operators_of(found->0))
}

/// The sum that follows from the instructions of the search `found`.
pub open spec fn tally_of(found: Option<Seq<Seq<Option<Seq<char>>>>>) -> int {
    run(operators_of(found->0)).1
}

/// The sum that follows from the matches of a search, if the search
/// succeeded, every match is an instruction and 32-bit arithmetic can follow
/// them.
pub fn tally_matches(found: Option<Vec<Vec<Option<Vec<char>>>>>) -> (total: Option<i32>)
    ensures
        total is Some <==> can_tally(
            match found {
                Some(matches) => Some(match_views(matches@)),
                None => None,
            },
        ),
        total is Some ==> total->0 == tally_of(
            match found {
                Some(matches) => Some(match_views(matches@)),
                None => None,
            },
        ),
{
    match found {
        None => None,
        Some(matches) => match operators_from(&matches) {
            None => None,
            Some(ops) => tally(&ops),
        },
    }
}

/// The sum of the products of all multiplications in `input`.
pub fn sum_of_mults(input: &str) -> (sum: i32)
    requires
        can_tally(mults_in(input@)),
    ensures
        sum == tally_of(mults_in(input@)),
{
    let found = capture_every("mul\\((\\d{1,3}),(\\d{1,3})\\)", &chars_of(input));
    tally_matches(found).unwrap()
}

/// As `sum_of_mults`, for any input: `None` where a number or the sum does
/// not fit in 32 bits.
pub fn try_sum_of_mults(input: &str) -> (sum: Option<i32>)
    ensures
        sum is Some <==> can_tally(mults_in(input@)),
        sum is Some ==> sum->0 == tally_of(mults_in(input@)),
{
    let found = capture_every("mul\\((\\d{1,3}),(\\d{1,3})\\)", &chars_of(input));
    match tally_matches(found) {
        None => None,
        Some(_) => Some(sum_of_mults(input)),
    }
}

/// The sum of the products of the multiplications in `input` that count:
/// those that no "don't()" precedes more closely than a "do()".
pub fn dos_and_donts(input: &str) -> (sum: i32)
    requires
        can_tally(operators_in(input@)),
    ensures
        sum == tally_of(operators_in(input@)),
{
    let found = capture_every(
        "mul\\((\\d{1,3}),(\\d{1,3})\\)|do\\(\\)()()|don't\\(\\)()()",
        &chars_of(input),
    );
    tally_matches(found).unwrap()
}

/// As `dos_and_donts`, for any input: `None` where a number or the sum does
/// not fit in 32 bits.
pub fn try_dos_and_donts(input: &str) -> (sum: Option<i32>)
    ensures
        sum is Some <==> can_tally(operators_in(input@)),
        sum is Some ==> sum->0 == tally_of(operators_in(input@)),
{
    let found = capture_every(
        "mul\\((\\d{1,3}),(\\d{1,3})\\)|do\\(\\)()()|don't\\(\\)()()",
        &chars_of(input),
    );
    match tally_matches(found) {
        None => None,
        Some(_) => Some(dos_and_donts(input)),
    }
}

} // verus!
