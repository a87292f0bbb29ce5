//! Stones that change with every blink: a stone marked 0 becomes 1, a
//! stone with an even number of digits splits into its two halves, any
//! other stone is multiplied by 2024.

use crate::text::{chars_of, is_usize, numeral_value, read_usize, split_words, texts, words};
use std::collections::HashMap;
use vstd::prelude::*;

verus! {

broadcast use {vstd::group_vstd_default, vstd::std_specs::hash::group_hash_axioms};

/// The number of decimal digits of `n`; 1 for 0.
pub open spec fn digits(n: nat) -> nat
    decreases n,
{
    if n < 10 {
        1
    } else {
        1 + digits(n / 10)
    }
}

/// Ten to the power `k`.
pub open spec fn pow10(k: nat) -> nat
    decreases k,
{
    if k == 0 {
        1
    } else {
        10 * pow10((k - 1) as nat)
    }
}

/// What one blink makes of the stone `n`.
pub open spec fn transform_of(n: nat) -> Seq<nat> {
    if n == 0 {
        seq![1nat]
    } else if digits(n) % 2 == 0 {
        halves(n, pow10(digits(n) / 2))
    } else {
        seq![n * 2024]
    }
}

/// What stands before and what stands in the last digits of `n`, the power
/// of ten `p` telling how many.
pub open spec fn halves(n: nat, p: nat) -> Seq<nat> {
    if p > 0 {
        seq![n / p, n % p]
    } else {
        seq![n, 0nat]
    }
}

/// What one blink makes of the stone `n` can be written in a machine word.
pub open spec fn transform_fits(n: nat) -> bool {
    forall|i: int| 0 <= i < transform_of(n).len() ==> #[trigger] transform_of(n)[i] <= usize::MAX
}

/// A number is at least ten to the power of the number of its digits but
/// one, and less than ten to the power of that number.
pub proof fn lemma_digits(n: nat)
    ensures
        n > 0 ==> pow10((digits(n) - 1) as nat) <= n,
        n < pow10(digits(n)),
        digits(n) >= 1,
    decreases n,
{
    if n >= 10 {
        lemma_digits(n / 10);
    } else {
        reveal_with_fuel(pow10, 2);
    }
}

/// Powers of ten grow with the exponent.
pub proof fn lemma_pow10_mono(a: nat, b: nat)
    requires
        a <= b,
    ensures
        1 <= pow10(a) <= pow10(b),
    decreases b,
{
    if a < b {
        lemma_pow10_mono(a, (b - 1) as nat);
    } else if a > 0 {
        lemma_pow10_mono((a - 1) as nat, (a - 1) as nat);
    }
}

/// What one blink makes of the stone `num`.
pub fn transform(num: usize) -> (stones: Vec<usize>)
    requires
        transform_fits(num as nat),
    ensures
        stones.len() == transform_of(num as nat).len(),
        forall|i: int| 0 <= i < stones.len() ==> #[trigger] stones[i] == transform_of(num as nat)[i],
{
    if num == 0 {
        return vec![1];
    }
    let mut len: usize = 1;
    let mut rest: usize = num;
    while rest >= 10
        invariant
            rest <= num,
            1 <= len,
            len + digits(rest as nat) == 1 + digits(num as nat),
            len <= num - rest + 1,
        decreases rest,
    {
        rest = rest / 10;
        len += 1;
    }
    assert(len == digits(num as nat));
    if len % 2 == 0 {
        let half = len / 2;
        let mut power: usize = 1;
        let mut k: usize = 0;
        proof {
            lemma_digits(num as nat);
        }
        while k < half
            invariant
                k <= half,
                half < len,
                len == digits(num as nat),
                power == pow10(k as nat),
                pow10((len - 1) as nat) <= num,
            decreases half - k,
        {
            proof {
                lemma_pow10_mono((k + 1) as nat, (len - 1) as nat);
            }
            power = power * 10;
            k += 1;
        }
        proof {
            lemma_pow10_mono(0, half as nat);
            assert(transform_of(num as nat) == halves(num as nat, pow10(half as nat)));
        }
        return vec![num / power, num % power];
    }
    assert(transform_of(num as nat)[0] == num * 2024);
    vec![num * 2024]
}

/// What one blink makes of a row of stones.
pub open spec fn blink_of(stones: Seq<nat>) -> Seq<nat>
    decreases stones.len(),
{
    if stones.len() == 0 {
        Seq::empty()
    } else {
        blink_of(stones.drop_last()) + transform_of(stones.last())
    }
}

/// The numbers of `stones`.
pub open spec fn marks(stones: Seq<usize>) -> Seq<nat> {
    Seq::new(stones.len(), |i: int| stones[i] as nat)
}

/// One blink keeps every stone of the row within a machine word.
pub open spec fn blink_fits(stones: Seq<nat>) -> bool {
    forall|i: int| 0 <= i < stones.len() ==> transform_fits(#[trigger] stones[i])
}

/// Lets the row of stones change once.
pub fn blink(stones: &mut Vec<usize>)
    requires
        blink_fits(marks(old(stones)@)),
    ensures
        marks(final(stones)@) == blink_of(marks(old(stones)@)),
{
    let ghost before = marks(stones@);
    let mut new_stones: Vec<usize> = Vec::new();
    let mut i: usize = 0;
    proof {
        assert(before.take(0) =~= Seq::<nat>::empty());
        assert(marks(new_stones@) =~= Seq::<nat>::empty());
    }
    while i < stones.len()
        invariant
            before == marks(stones@),
            blink_fits(before),
            i <= stones.len(),
            marks(new_stones@) == blink_of(before.take(i as int)),
        decreases stones.len() - i,
    {
        proof {
            assert(before[i as int] == stones[i as int] as nat);
            assert(transform_fits(before[i as int]));
            assert(before.take(i + 1).drop_last() =~= before.take(i as int));
            assert(before.take(i + 1).last() == before[i as int]);
        }
        let sub = transform(stones[i]);
        let ghost so_far = new_stones@;
        let mut j: usize = 0;
        while j < sub.len()
            invariant
                j <= sub.len(),
                new_stones@ == so_far + sub@.take(j as int),
            decreases sub.len() - j,
        {
            new_stones.push(sub[j]);
            proof {
                assert(sub@.take(j + 1) =~= sub@.take(j as int).push(sub[j as int]));
                assert(so_far + sub@.take(j + 1) =~= (so_far + sub@.take(j as int)).push(
                    sub[j as int],
                ));
            }
            j += 1;
        }
        proof {
            assert(sub@.take(j as int) =~= sub@);
            assert(marks(new_stones@) =~= marks(so_far) + transform_of(before[i as int]));
        }
        i += 1;
    }
    proof {
        assert(before.take(i as int) =~= before);
    }
    *stones = new_stones;
}

/// The number of stones that the stone `n` has become after `left` blinks.
pub open spec fn count_after(left: nat, n: nat) -> nat
    decreases left,
{
    if left == 0 {
        1
    } else if transform_of(n).len() == 1 {
        count_after((left - 1) as nat, transform_of(n)[0])
    } else {
        count_after((left - 1) as nat, transform_of(n)[0]) + count_after(
            (left - 1) as nat,
            transform_of(n)[1],
        )
    }
}

/// Machine words can follow the stone `n` through `left` blinks and count
/// what it becomes.
pub open spec fn can_count(left: nat, n: nat) -> bool
    decreases left,
{
    left == 0 || (transform_fits(n) && count_after(left, n) <= usize::MAX && forall|i: int|
        0 <= i < transform_of(n).len() ==> can_count(
            (left - 1) as nat,
            #[trigger] transform_of(n)[i],
        ))
}

/// The number of blinks that `Memoize` counts through.
pub const BLINKS: i32 = 75;

/// The key under which the count for the stone `num` after `blinks` blinks
/// is kept.
pub open spec fn key_of(blinks: i32, num: usize) -> u128 {
    (blinks as u128 * 0x1_0000_0000_0000_0000 + num as u128) as u128
}

/// Counts of stones that need not be counted again: for a stone and the
/// number of blinks behind it, into how many stones it turns in the blinks
/// that are left of 75.
pub struct Memoize {
    pub cache: HashMap<u128, usize>,
}

impl Memoize {
    /// Every count that is kept is right.
    pub open spec fn valid(&self) -> bool {
        forall|blinks: i32, num: usize|
            0 <= blinks <= BLINKS && self.cache@.contains_key(#[trigger] key_of(blinks, num))
                ==> self.cache@[key_of(blinks, num)] == count_after(
                (BLINKS - blinks) as nat,
                num as nat,
            )
    }

    /// No counts kept yet.
    pub fn new() -> (memo: Memoize)
        ensures
            memo.valid(),
    {
        Memoize { cache: HashMap::new() }
    }

    /// Into how many stones the stone `num` turns in the blinks that are
    /// left of 75 when `blinks` blinks are behind it.
    pub fn num_stones(&mut self, blinks: i32, num: usize) -> (count: usize)
        requires
            old(self).valid(),
            0 <= blinks <= BLINKS,
            can_count((BLINKS - blinks) as nat, num as nat),
        ensures
            final(self).valid(),
            count == count_after((BLINKS - blinks) as nat, num as nat),
        decreases BLINKS - blinks,
    {
        if blinks == 75 {
            return 1;
        }
        let key: u128 = blinks as u128 * 0x1_0000_0000_0000_0000 + num as u128;
        proof {
            assert(key == key_of(blinks, num));
        }
        if let Some(count) = self.cache.get(&key) {
            return *count;
        }
        let stones = transform(num);
        let ghost left = (BLINKS - blinks - 1) as nat;
        proof {
            lemma_transform_len(num as nat);
            lemma_can_count((BLINKS - blinks) as nat, num as nat, 0);
            if stones.len() == 2 {
                lemma_can_count((BLINKS - blinks) as nat, num as nat, 1);
            }
        }
        let mut count: usize = self.num_stones(blinks + 1, stones[0]);
        if stones.len() > 1 {
            let second = self.num_stones(blinks + 1, stones[1]);
            count = count + second;
        }
        let ghost before = self.cache@;
        self.cache.insert(key, count);
        proof {
            assert forall|b: i32, n: usize|
                0 <= b <= BLINKS && self.cache@.contains_key(#[trigger] key_of(b, n)) implies self.cache@[key_of(
                b,
                n,
            )] == count_after((BLINKS - b) as nat, n as nat) by {
                if key_of(b, n) == key {
                    lemma_key_of(b, n, blinks, num);
                } else {
                    assert(before.contains_key(key_of(b, n)));
                }
            }
        }
        count
    }
}

/// What `can_count` says of one blink.
pub proof fn lemma_can_count(left: nat, n: nat, i: int)
    requires
        left >= 1,
        can_count(left, n),
        0 <= i < transform_of(n).len(),
    ensures
        can_count((left - 1) as nat, transform_of(n)[i]),
        transform_fits(n),
        count_after(left, n) <= usize::MAX,
        1 <= transform_of(n).len() <= 2,
{
    lemma_transform_len(n);
}

/// A stone becomes one stone or two.
pub proof fn lemma_transform_len(n: nat)
    ensures
        1 <= transform_of(n).len() <= 2,
{
    if n == 0 {
        assert(seq![1nat].len() == 1);
    } else if digits(n) % 2 == 0 {
        assert(halves(n, pow10(digits(n) / 2)).len() == 2);
    } else {
        assert(seq![n * 2024].len() == 1);
    }
}

/// Different stones or different numbers of blinks have different keys.
pub proof fn lemma_key_of(b1: i32, n1: usize, b2: i32, n2: usize)
    requires
        0 <= b1 <= BLINKS,
        0 <= b2 <= BLINKS,
        key_of(b1, n1) == key_of(b2, n2),
    ensures
        b1 == b2,
        n1 == n2,
{
    assert(b1 as int * 0x1_0000_0000_0000_0000 + n1 == b2 as int * 0x1_0000_0000_0000_0000 + n2);
}

/// Every word of `input` writes a stone.
pub open spec fn well_formed(input: Seq<char>) -> bool {
    forall|i: int| 0 <= i < words(input).len() ==> is_usize(#[trigger] words(input)[i])
}

/// The stones that `input` lists.
pub open spec fn stones_of(input: Seq<char>) -> Seq<nat> {
    Seq::new(words(input).len(), |i: int| numeral_value(words(input)[i]) as nat)
}

/// The stones that `input` lists.
pub fn parse_stones(input: &str) -> (stones: Vec<usize>)
    requires
        well_formed(input@),
    ensures
        marks(stones@) == stones_of(input@),
{
    let chars = chars_of(input);
    let tokens = split_words(&chars);
    let mut stones: Vec<usize> = Vec::new();
    let mut i: usize = 0;
    proof {
        assert(texts(tokens@).len() == tokens.len());
    }
    while i < tokens.len()
        invariant
            well_formed(input@),
            texts(tokens@) == words(input@),
            i <= tokens.len(),
            stones.len() == i,
            forall|k: int| 0 <= k < i ==> #[trigger] stones[k] as nat == stones_of(input@)[k],
        decreases tokens.len() - i,
    {
        proof {
            assert(texts(tokens@).len() == tokens.len());
            assert(texts(tokens@)[i as int] == tokens[i as int]@);
            assert(is_usize(words(input@)[i as int]));
        }
        let value = read_usize(&tokens[i]);
        stones.push(value.unwrap());
        i += 1;
    }
    proof {
        assert(texts(tokens@).len() == tokens.len());
        assert(marks(stones@) =~= stones_of(input@));
    }
    stones
}

/// The row of stones after `times` blinks.
pub open spec fn blinked(times: nat, stones: Seq<nat>) -> Seq<nat>
    decreases times,
{
    if times == 0 {
        stones
    } else {
        blinked((times - 1) as nat, blink_of(stones))
    }
}

/// Machine words can follow the row of stones through `times` blinks.
pub open spec fn can_blink(times: nat, stones: Seq<nat>) -> bool
    decreases times,
{
    times == 0 || (blink_fits(stones) && can_blink((times - 1) as nat, blink_of(stones)))
}

/// The number of stones that `input` lists, after 25 blinks.
pub fn part1(input: &str) -> (count: usize)
    requires
        well_formed(input@),
        can_blink(25, stones_of(input@)),
    ensures
        count == blinked(25, stones_of(input@)).len(),
{
    let mut stones = parse_stones(input);
    let ghost at_first = marks(stones@);
    let mut done: usize = 0;
    while done < 25
        invariant
            done <= 25,
            can_blink((25 - done) as nat, marks(stones@)),
            blinked((25 - done) as nat, marks(stones@)) == blinked(25, at_first),
        decreases 25 - done,
    {
        blink(&mut stones);
        done += 1;
    }
    stones.len()
}

/// The number of stones that the stones `stones` have become after 75
/// blinks.
pub open spec fn total_after(stones: Seq<nat>) -> nat
    decreases stones.len(),
{
    if stones.len() == 0 {
        0
    } else {
        total_after(stones.drop_last()) + count_after(75, stones.last())
    }
}

/// Machine words can count what the stones `stones` become in 75 blinks.
pub open spec fn can_total(stones: Seq<nat>) -> bool {
    &&& total_after(stones) <= usize::MAX
    &&& forall|i: int| 0 <= i < stones.len() ==> can_count(75, #[trigger] stones[i])
}

/// The total of a part of the row is no more than that of the whole.
proof fn lemma_total_prefix(stones: Seq<nat>, n: int)
    requires
        0 <= n <= stones.len(),
    ensures
        total_after(stones.take(n)) <= total_after(stones),
    decreases stones.len() - n,
{
    if n < stones.len() {
        lemma_total_prefix(stones, n + 1);
        assert(stones.take(n + 1).drop_last() =~= stones.take(n));
    } else {
        assert(stones.take(n) =~= stones);
    }
}

/// The number of stones that `input` lists, after 75 blinks.
pub fn part2(input: &str) -> (count: usize)
    requires
        well_formed(input@),
        can_total(stones_of(input@)),
    ensures
        count == total_after(stones_of(input@)),
{
    let mut memo = Memoize::new();
    let stones = parse_stones(input);
    let ghost all = marks(stones@);
    let mut count: usize = 0;
    let mut i: usize = 0;
    proof {
        assert(all.take(0) =~= Seq::<nat>::empty());
    }
    while i < stones.len()
        invariant
            all == marks(stones@),
            can_total(all),
            memo.valid(),
            i <= stones.len(),
            count == total_after(all.take(i as int)),
        decreases stones.len() - i,
    {
        proof {
            assert(all[i as int] == stones[i as int] as nat);
            assert(can_count(75, all[i as int]));
            lemma_total_prefix(all, i + 1);
            assert(all.take(i + 1).drop_last() =~= all.take(i as int));
            assert(all.take(i + 1).last() == all[i as int]);
        }
        let n = memo.num_stones(0, stones[i]);
        count = count + n;
        i += 1;
    }
    proof {
        assert(all.take(i as int) =~= all);
    }
    count
}

} // verus!
