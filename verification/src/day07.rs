//! Equations without their operators: whether operators can be placed
//! between the numbers, to be applied from left to right, so that a wanted
//! value results.

use crate::text::{
    fields, lines, lines_of, numeral, numeral_value, parse_number, split_on, texts,
};
use vstd::prelude::*;

verus! {

/// An operator that may stand between two numbers.
#[derive(Clone, Copy, Debug)]
pub enum Operation {
    Add,
    Mul,
    Concat,
}

/// Ten to the power of the number of digits of `n`; 10 for 0.
pub open spec fn shift_of(n: int) -> int
    decreases n,
{
    if n < 10 {
        10
    } else {
        10 * shift_of(n / 10)
    }
}

/// The number written by the digits of `lhs` followed by those of `rhs`,
/// neither being negative.
pub open spec fn concat_value(lhs: int, rhs: int) -> int {
    lhs * shift_of(rhs) + rhs
}

/// What `op` makes of `lhs` and `rhs`.
pub open spec fn value(op: Operation, lhs: int, rhs: int) -> int {
    match op {
        Operation::Add => lhs + rhs,
        Operation::Mul => lhs * rhs,
        Operation::Concat => concat_value(lhs, rhs),
    }
}

/// `shift_of` is positive.
pub proof fn lemma_shift_positive(n: int)
    ensures
        shift_of(n) >= 10,
    decreases n,
{
    if n >= 10 {
        lemma_shift_positive(n / 10);
    }
}

/// Ten to the power of the number of digits of `n`, if it fits in 64 bits.
pub fn shift(n: i64) -> (power: Option<i64>)
    requires
        n >= 0,
    ensures
        power is Some <==> shift_of(n as int) <= i64::MAX,
        power is Some ==> power->0 == shift_of(n as int),
{
    let mut power: i64 = 10;
    let mut rest: i64 = n;
    while rest >= 10
        invariant
            0 <= rest <= n,
            10 <= power,
            power * shift_of(rest as int) == 10 * shift_of(n as int),
        decreases rest,
    {
        proof {
            lemma_shift_positive(rest as int / 10);
            assert(power * (10 * shift_of(rest as int / 10)) == (power * 10) * shift_of(
                rest as int / 10,
            )) by (nonlinear_arith);
            assert(power * 10 <= (power * 10) * shift_of(rest as int / 10)) by (nonlinear_arith)
                requires
                    power >= 10,
                    shift_of(rest as int / 10) >= 10,
            ;
        }
        match power.checked_mul(10) {
            Some(next) => {
                power = next;
            },
            None => {
                proof {
                    assert(shift_of(n as int) > i64::MAX) by (nonlinear_arith)
                        requires
                            power * (10 * shift_of(rest as int / 10)) == 10 * shift_of(n as int),
                            shift_of(rest as int / 10) >= 10,
                            power * 10 > i64::MAX,
                            power >= 10,
                    ;
                }
                return None;
            },
        }
        rest = rest / 10;
    }
    Some(power)
}

/// The number written by the digits of `lhs` followed by those of `rhs`.
pub fn concat(lhs: i64, rhs: i64) -> (joined: i64)
    requires
        lhs >= 0,
        rhs >= 0,
        concat_value(lhs as int, rhs as int) <= i64::MAX,
    ensures
        joined == concat_value(lhs as int, rhs as int),
{
    proof {
        lemma_shift_positive(rhs as int);
        if lhs > 0 {
            assert(shift_of(rhs as int) <= lhs * shift_of(rhs as int)) by (nonlinear_arith)
                requires
                    lhs >= 1,
                    shift_of(rhs as int) >= 10,
            ;
        }
    }
    if lhs == 0 {
        assert(0 * shift_of(rhs as int) == 0);
        return rhs;
    }
    let power = shift(rhs).unwrap();
    lhs * power + rhs
}

/// What `op` makes of `lhs` and `rhs`, if it fits in 64 bits.
pub fn apply(op: Operation, lhs: i64, rhs: i64) -> (result: Option<i64>)
    requires
        lhs >= 0,
        rhs >= 0,
    ensures
        result is Some <==> value(op, lhs as int, rhs as int) <= i64::MAX,
        result is Some ==> result->0 == value(op, lhs as int, rhs as int) && result->0 >= 0,
{
    proof {
        lemma_shift_positive(rhs as int);
        assert(lhs * rhs >= 0) by (nonlinear_arith)
            requires
                lhs >= 0,
                rhs >= 0,
        ;
        assert(lhs * shift_of(rhs as int) >= 0) by (nonlinear_arith)
            requires
                lhs >= 0,
                shift_of(rhs as int) >= 10,
        ;
    }
    match op {
        Operation::Add => lhs.checked_add(rhs),
        Operation::Mul => lhs.checked_mul(rhs),
        Operation::Concat => {
            if lhs == 0 {
                assert(0 * shift_of(rhs as int) == 0);
                return Some(rhs);
            }
            proof {
                assert(shift_of(rhs as int) <= lhs * shift_of(rhs as int)) by (nonlinear_arith)
                    requires
                        lhs >= 1,
                        shift_of(rhs as int) >= 10,
                ;
            }
            match shift(rhs) {
                None => None,
                Some(power) => match lhs.checked_mul(power) {
                    None => None,
                    Some(shifted) => shifted.checked_add(rhs),
                },
            }
        },
    }
}

/// One operator from `ops` makes `v` of `l` and `r`, and `v` does not
/// exceed `test`.
pub open spec fn made_by(test: int, ops: Seq<Operation>, l: int, r: int, v: int) -> bool {
    exists|j: int| 0 <= j < ops.len() && v == value(#[trigger] ops[j], l, r) && v <= test
}

/// Operators from `ops` can stand between the numbers `nums` so that,
/// applied from left to right, they give `v`, and no value on the way after
/// the first number exceeds `test`.
pub open spec fn reachable(test: int, nums: Seq<i64>, ops: Seq<Operation>, v: int) -> bool
    decreases nums.len(),
{
    if nums.len() <= 1 {
        nums.len() == 1 && v == nums[0]
    } else {
        exists|l: int|
            reachable(test, nums.drop_last(), ops, l) && #[trigger] made_by(
                test,
                ops,
                l,
                nums.last() as int,
                v,
            )
    }
}

/// One more operator leads from a value within reach to the next.
pub proof fn lemma_reachable_next(
    test: int,
    nums: Seq<i64>,
    ops: Seq<Operation>,
    l: int,
    v: int,
)
    requires
        nums.len() >= 2,
        reachable(test, nums.drop_last(), ops, l),
        made_by(test, ops, l, nums.last() as int, v),
    ensures
        reachable(test, nums, ops, v),
{
}

/// A value within reach after the first number came from one within reach
/// before, by one operator.
pub proof fn lemma_reachable_from(test: int, nums: Seq<i64>, ops: Seq<Operation>, v: int) -> (l: int)
    requires
        nums.len() >= 2,
        reachable(test, nums, ops, v),
    ensures
        reachable(test, nums.drop_last(), ops, l),
        made_by(test, ops, l, nums.last() as int, v),
{
    choose|l: int|
        reachable(test, nums.drop_last(), ops, l) && #[trigger] made_by(
            test,
            ops,
            l,
            nums.last() as int,
            v,
        )
}

/// None of the numbers is negative.
pub open spec fn no_negative(nums: Seq<i64>) -> bool {
    forall|i: int| 0 <= i < nums.len() ==> 0 <= #[trigger] nums[i]
}

/// The values of `queue` are those within reach of `nums`.
pub open spec fn holds_reach(queue: Seq<i64>, test: int, nums: Seq<i64>, ops: Seq<Operation>) -> bool {
    &&& forall|i: int| 0 <= i < queue.len() ==> 0 <= #[trigger] queue[i]
    &&& forall|i: int| 0 <= i < queue.len() ==> reachable(test, nums, ops, #[trigger] queue[i] as int)
    &&& forall|v: int| #[trigger]
        reachable(test, nums, ops, v) ==> exists|i: int| 0 <= i < queue.len() && #[trigger] queue[i] == v
}

/// The values of `queue` are within reach of `nums`, and among them is
/// everything that one operator makes of one of the first `a` values of
/// `from` and `rhs`, and of the value at `a` with one of the first `b`
/// operators.
pub open spec fn holds_part(
    queue: Seq<i64>,
    test: int,
    nums: Seq<i64>,
    ops: Seq<Operation>,
    from: Seq<i64>,
    a: int,
    b: int,
) -> bool {
    &&& forall|i: int| 0 <= i < queue.len() ==> 0 <= #[trigger] queue[i]
    &&& forall|i: int| 0 <= i < queue.len() ==> reachable(test, nums, ops, #[trigger] queue[i] as int)
    &&& forall|i: int, j: int|
        #![trigger from[i], ops[j]]
        0 <= i <= a && i < from.len() && 0 <= j < ops.len() && (i < a || j < b) && value(
            ops[j],
            from[i] as int,
            nums.last() as int,
        ) <= test ==> has(queue, value(ops[j], from[i] as int, nums.last() as int))
}

/// `v` is one of the values of `queue`.
pub open spec fn has(queue: Seq<i64>, v: int) -> bool {
    exists|n: int| 0 <= n < queue.len() && #[trigger] queue[n] == v
}

/// A queue keeps its values when one more is pushed.
pub proof fn lemma_has_push(queue: Seq<i64>, x: i64, v: int)
    requires
        has(queue, v) || v == x,
    ensures
        has(queue.push(x), v),
{
    if has(queue, v) {
        let n = choose|n: int| 0 <= n < queue.len() && #[trigger] queue[n] == v;
        assert(queue.push(x)[n] == v);
    } else {
        assert(queue.push(x)[queue.len() as int] == v);
    }
}

/// Whether operators from `ops` can stand between the numbers `nums` so
/// that, applied from left to right, they give `test`, without a value on
/// the way that exceeds `test`.
pub fn valid_ops_exist(test: i64, nums: &[i64], ops: &[Operation]) -> (valid: bool)
    requires
        nums.len() > 0,
        no_negative(nums@),
    ensures
        valid == reachable(test as int, nums@, ops@, test as int),
{
    let mut queue: Vec<i64> = Vec::new();
    queue.push(nums[0]);
    let mut k: usize = 1;
    proof {
        assert(nums@.take(1).len() == 1);
        assert forall|v: int| #[trigger]
            reachable(test as int, nums@.take(1), ops@, v) implies exists|i: int|
            0 <= i < queue.len() && #[trigger] queue[i] == v by {
            assert(queue[0] == v);
        }
    }
    while k < nums.len()
        invariant
            no_negative(nums@),
            1 <= k <= nums.len(),
            holds_reach(queue@, test as int, nums@.take(k as int), ops@),
        decreases nums.len() - k,
    {
        let rhs = nums[k];
        let ghost before = nums@.take(k as int);
        let ghost now = nums@.take(k + 1);
        proof {
            assert(now.drop_last() =~= before);
            assert(now.last() == rhs);
        }
        let mut new_queue: Vec<i64> = Vec::new();
        let mut a: usize = 0;
        while a < queue.len()
            invariant
                rhs >= 0,
                now.len() >= 2,
                now.drop_last() == before,
                now.last() == rhs,
                holds_reach(queue@, test as int, before, ops@),
                a <= queue.len(),
                holds_part(new_queue@, test as int, now, ops@, queue@, a as int, 0),
            decreases queue.len() - a,
        {
            let lhs = queue[a];
            let mut b: usize = 0;
            while b < ops.len()
                invariant
                    rhs >= 0,
                    now.len() >= 2,
                    now.drop_last() == before,
                    now.last() == rhs,
                    holds_reach(queue@, test as int, before, ops@),
                    a < queue.len(),
                    lhs == queue[a as int],
                    b <= ops.len(),
                    holds_part(new_queue@, test as int, now, ops@, queue@, a as int, b as int),
                decreases ops.len() - b,
            {
                let ghost old_queue = new_queue@;
                let ghost made = value(ops@[b as int], lhs as int, rhs as int);
                let mut pushed = false;
                if let Some(num) = apply(ops[b], lhs, rhs) {
                    // if num is greater than test, then we can prune this branch from the search tree
                    if num <= test {
                        new_queue.push(num);
                        proof {
                            assert(reachable(test as int, before, ops@, lhs as int));
                            assert(made_by(test as int, ops@, lhs as int, rhs as int, num as int));
                            lemma_reachable_next(test as int, now, ops@, lhs as int, num as int);
                        }
                    }
                }
                proof {
                    let queue_now = new_queue@;
                    assert forall|i: int, j: int|
                        #![trigger queue@[i], ops@[j]]
                        0 <= i <= a && i < queue@.len() && 0 <= j < ops@.len() && (i < a || j < b
                            + 1) && value(ops@[j], queue@[i] as int, now.last() as int)
                            <= test implies has(
                        queue_now,
                        value(ops@[j], queue@[i] as int, now.last() as int),
                    ) by {
                        let v = value(ops@[j], queue@[i] as int, now.last() as int);
                        if i < a || j < b {
                            assert(has(old_queue, v));
                            if queue_now != old_queue {
                                lemma_has_push(old_queue, queue_now.last(), v);
                                assert(queue_now =~= old_queue.push(queue_now.last()));
                            }
                        } else {
                            assert(queue_now =~= old_queue.push(v as i64));
                            lemma_has_push(old_queue, v as i64, v);
                        }
                    }
                }
                b += 1;
            }
            a += 1;
        }
        proof {
            assert forall|v: int| #[trigger] reachable(test as int, now, ops@, v) implies exists|
                i: int,
            | 0 <= i < new_queue.len() && #[trigger] new_queue[i] == v by {
                let l = lemma_reachable_from(test as int, now, ops@, v);
                let j = choose|j: int|
                    0 <= j < ops@.len() && v == value(#[trigger] ops@[j], l, now.last() as int) && v
                        <= test;
                let i = choose|i: int| 0 <= i < queue.len() && #[trigger] queue[i] == l;
                assert(has(new_queue@, value(ops@[j], queue@[i] as int, now.last() as int)));
            }
        }
        queue = new_queue;
        k += 1;
    }
    proof {
        assert(nums@.take(k as int) =~= nums@);
    }
    let mut i: usize = 0;
    while i < queue.len()
        invariant
            i <= queue.len(),
            forall|n: int| 0 <= n < i ==> queue[n] != test,
            holds_reach(queue@, test as int, nums@, ops@),
        decreases queue.len() - i,
    {
        if queue[i] == test {
            return true;
        }
        i += 1;
    }
    false
}

/// `word` writes a number that fits in 64 bits.
pub open spec fn is_i64(word: Seq<char>) -> bool {
    numeral(word) && i64::MIN <= numeral_value(word) <= i64::MAX
}

/// `word` writes a number from 0 up that fits in 64 bits.
pub open spec fn is_count(word: Seq<char>) -> bool {
    is_i64(word) && numeral_value(word) >= 0
}

/// `line` is an equation: a wanted value, a colon and a space, and one
/// number or more, from 0 up, with one space between each two.
pub open spec fn is_equation(line: Seq<char>) -> bool {
    let parts = fields(line, ':');
    &&& parts.len() == 2
    &&& is_i64(parts[0])
    &&& parts[1].len() > 0
    &&& parts[1][0] == ' '
    &&& forall|i: int|
        0 <= i < fields(parts[1].skip(1), ' ').len() ==> is_count(
            #[trigger] fields(parts[1].skip(1), ' ')[i],
        )
}

/// The wanted value of the equation `line`.
pub open spec fn wanted(line: Seq<char>) -> int {
    numeral_value(fields(line, ':')[0])
}

/// The numbers of the equation `line`.
pub open spec fn numbers(line: Seq<char>) -> Seq<i64> {
    let words = fields(fields(line, ':')[1].skip(1), ' ');
    Seq::new(words.len(), |i: int| numeral_value(words[i]) as i64)
}

/// The equation `line` can be made true with operators from `ops`.
pub open spec fn solvable(line: Seq<char>, ops: Seq<Operation>) -> bool {
    reachable(wanted(line), numbers(line), ops, wanted(line))
}

/// The sum of the wanted values of those equations among `ls` that can be
/// made true with operators from `ops`.
pub open spec fn calibration(ls: Seq<Seq<char>>, ops: Seq<Operation>) -> int
    decreases ls.len(),
{
    if ls.len() == 0 {
        0
    } else {
        calibration(ls.drop_last(), ops) + (if solvable(ls.last(), ops) {
            wanted(ls.last())
        } else {
            0
        })
    }
}

/// 64-bit arithmetic can add up the calibration of `ls`, equation by
/// equation.
pub open spec fn calibration_fits(ls: Seq<Seq<char>>, ops: Seq<Operation>) -> bool
    decreases ls.len(),
{
    ls.len() == 0 || (calibration_fits(ls.drop_last(), ops) && i64::MIN <= calibration(ls, ops)
        <= i64::MAX)
}

/// Every line of `input` is an equation.
pub open spec fn well_formed(input: Seq<char>) -> bool {
    forall|i: int| 0 <= i < lines(input).len() ==> is_equation(#[trigger] lines(input)[i])
}

/// The wanted value and the numbers of the equation `line`.
pub fn parse_equation(line: &Vec<char>) -> (equation: (i64, Vec<i64>))
    requires
        is_equation(line@),
    ensures
        equation.0 == wanted(line@),
        equation.1@ == numbers(line@),
        equation.1.len() > 0,
        no_negative(equation.1@),
{
    let parts = split_on(line, ':');
    proof {
        assert(texts(parts@).len() == parts.len());
        assert(texts(parts@)[0] == parts[0]@);
        assert(texts(parts@)[1] == parts[1]@);
    }
    let test: i64 = parse_number(&parts[0], -0x8000_0000_0000_0000, 0x7fff_ffff_ffff_ffff).unwrap() as i64;
    let rest = crate::text::slice_of(&parts[1], 1, parts[1].len());
    proof {
        assert(rest@ =~= parts[1]@.skip(1));
    }
    let words = split_on(&rest, ' ');
    let mut nums: Vec<i64> = Vec::new();
    let mut i: usize = 0;
    proof {
        assert(texts(words@).len() == words.len());
    }
    while i < words.len()
        invariant
            is_equation(line@),
            texts(words@) == fields(fields(line@, ':')[1].skip(1), ' '),
            i <= words.len(),
            nums.len() == i,
            forall|k: int| 0 <= k < i ==> #[trigger] nums[k] == numbers(line@)[k] && nums[k] >= 0,
        decreases words.len() - i,
    {
        proof {
            assert(texts(words@).len() == words.len());
            assert(texts(words@)[i as int] == words[i as int]@);
            assert(is_count(fields(fields(line@, ':')[1].skip(1), ' ')[i as int]));
        }
        let num: i64 = parse_number(&words[i], -0x8000_0000_0000_0000, 0x7fff_ffff_ffff_ffff).unwrap() as i64;
        nums.push(num);
        i += 1;
    }
    proof {
        assert(texts(words@).len() == words.len());
        assert(nums@ =~= numbers(line@));
    }
    (test, nums)
}

/// The sum of the wanted values of those equations of `input`, one to a
/// line, that can be made true with operators from `ops`.
pub fn parse_and_sum_ops(input: &str, ops: &[Operation]) -> (sum: i64)
    requires
        well_formed(input@),
        calibration_fits(lines(input@), ops@),
    ensures
        sum == calibration(lines(input@), ops@),
{
    let rows = lines_of(input);
    let ghost ls = lines(input@);
    let mut sum: i64 = 0;
    let mut i: usize = 0;
    proof {
        assert(texts(rows@).len() == rows.len());
        assert(ls.take(0) =~= Seq::<Seq<char>>::empty());
    }
    while i < rows.len()
        invariant
            ls == lines(input@),
            texts(rows@) == ls,
            well_formed(input@),
            calibration_fits(ls, ops@),
            i <= rows.len(),
            sum == calibration(ls.take(i as int), ops@),
        decreases rows.len() - i,
    {
        proof {
            assert(texts(rows@).len() == rows.len());
            assert(texts(rows@)[i as int] == rows[i as int]@);
            assert(is_equation(lines(input@)[i as int]));
            assert(ls.take(i + 1).drop_last() =~= ls.take(i as int));
            assert(ls.take(i + 1).last() == ls[i as int]);
            lemma_fits_prefix(ls, ops@, i + 1);
        }
        let (test, nums) = parse_equation(&rows[i]);
        if valid_ops_exist(test, nums.as_slice(), ops) {
            sum += test;
        }
        i += 1;
    }
    proof {
        assert(texts(rows@).len() == rows.len());
        assert(ls.take(i as int) =~= ls);
    }
    sum
}

/// Arithmetic that can add up a calibration can add up its beginning.
pub proof fn lemma_fits_prefix(ls: Seq<Seq<char>>, ops: Seq<Operation>, n: int)
    requires
        0 <= n <= ls.len(),
        calibration_fits(ls, ops),
    ensures
        calibration_fits(ls.take(n), ops),
    decreases ls.len() - n,
{
    if n < ls.len() {
        lemma_fits_prefix(ls, ops, n + 1);
        assert(ls.take(n + 1).drop_last() =~= ls.take(n));
    } else {
        assert(ls.take(n) =~= ls);
    }
}

/// Addition and multiplication.
pub open spec fn plain_ops() -> Seq<Operation> {
    seq![Operation::Add, Operation::Mul]
}

/// Addition, multiplication and concatenation.
pub open spec fn all_ops() -> Seq<Operation> {
    seq![Operation::Add, Operation::Mul, Operation::Concat]
}

/// The sum of the wanted values of the equations of `input` that addition
/// and multiplication can make true.
pub fn part1(input: &str) -> (sum: i64)
    requires
        well_formed(input@),
        calibration_fits(lines(input@), plain_ops()),
    ensures
        sum == calibration(lines(input@), plain_ops()),
{
    let ops = [Operation::Add, Operation::Mul];
    assert(ops@ =~= plain_ops());
    parse_and_sum_ops(input, ops.as_slice())
}

/// The sum of the wanted values of the equations of `input` that addition,
/// multiplication and concatenation can make true.
pub fn part2(input: &str) -> (sum: i64)
    requires
        well_formed(input@),
        calibration_fits(lines(input@), all_ops()),
    ensures
        sum == calibration(lines(input@), all_ops()),
{
    let ops = [Operation::Add, Operation::Mul, Operation::Concat];
    assert(ops@ =~= all_ops());
    parse_and_sum_ops(input, ops.as_slice())
}

} // verus!
