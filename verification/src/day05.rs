//! Page ordering: from rules "this page before that one" the pairs of pages
//! whose order follows, the updates that respect it, and the repair of those
//! that do not.

use crate::tally::{cell_set, lemma_cell_set_finite};
use crate::text::{fields, is_i32, lines, lines_of, numeral_value, read_i32, split_on, texts};
use vstd::prelude::*;

verus! {

/// A rule: page `.0` must come before page `.1`.
#[derive(Clone, Copy, Debug, PartialEq, Eq)]
pub struct Rule(pub i32, pub i32);

/// A consequence of the rules: page `.0` comes before page `.1`.
#[derive(Clone, Copy, Debug, PartialEq, Eq)]
pub struct Before(pub i32, pub i32);

/// `x` before `z` is one of the rules.
pub open spec fn is_rule(rules: Seq<Rule>, x: i32, z: i32) -> bool {
    exists|i: int| 0 <= i < rules.len() && #[trigger] rules[i] == Rule(x, z)
}

/// Some rule puts a page before `y`.
pub open spec fn comes_second(rules: Seq<Rule>, y: i32) -> bool {
    exists|i: int| 0 <= i < rules.len() && (#[trigger] rules[i]).1 == y
}

/// Some rule puts `x` before a page.
pub open spec fn comes_first(rules: Seq<Rule>, x: i32) -> bool {
    exists|i: int| 0 <= i < rules.len() && (#[trigger] rules[i]).0 == x
}

/// `x` before `z` follows from the rules in at most `n` steps: it is a rule,
/// or `x` comes before some `y` and `y` before `z`, each in fewer steps,
/// and no rule puts `z` before `x`.
pub open spec fn follows_in(n: nat, rules: Seq<Rule>, x: i32, z: i32) -> bool
    decreases n,
{
    if n == 0 {
        is_rule(rules, x, z)
    } else {
        follows_in((n - 1) as nat, rules, x, z) || exists|y: i32| #[trigger]
            comes_second(rules, y) && follows_in((n - 1) as nat, rules, x, y) && follows_in(
                (n - 1) as nat,
                rules,
                y,
                z,
            ) && !is_rule(rules, z, x)
    }
}

/// `x` before `z` follows from the rules.
pub open spec fn follows(rules: Seq<Rule>, x: i32, z: i32) -> bool {
    exists|n: nat| follows_in(n, rules, x, z)
}

/// `x` before `z` is among `ordered`.
pub open spec fn holds(ordered: Seq<Before>, x: i32, z: i32) -> bool {
    exists|i: int| 0 <= i < ordered.len() && #[trigger] ordered[i] == Before(x, z)
}

/// `ordered` lists what follows from the rules, no more and no less.
pub open spec fn is_order_of(ordered: Seq<Before>, rules: Seq<Rule>) -> bool {
    forall|x: i32, z: i32| #[trigger] holds(ordered, x, z) <==> follows(rules, x, z)
}

/// What follows in some number of steps has its first page first in a rule
/// and its second page second in a rule.
pub proof fn lemma_follows_ends(n: nat, rules: Seq<Rule>, x: i32, z: i32)
    requires
        follows_in(n, rules, x, z),
    ensures
        comes_first(rules, x),
        comes_second(rules, z),
    decreases n,
{
    if n == 0 {
        let i = choose|i: int| 0 <= i < rules.len() && #[trigger] rules[i] == Rule(x, z);
        assert(rules[i].0 == x && rules[i].1 == z);
    } else if follows_in((n - 1) as nat, rules, x, z) {
        lemma_follows_ends((n - 1) as nat, rules, x, z);
    } else {
        let y = choose|y: i32| #[trigger]
            comes_second(rules, y) && follows_in((n - 1) as nat, rules, x, y) && follows_in(
                (n - 1) as nat,
                rules,
                y,
                z,
            ) && !is_rule(rules, z, x);
        lemma_follows_ends((n - 1) as nat, rules, x, y);
        lemma_follows_ends((n - 1) as nat, rules, y, z);
    }
}

/// What follows in `n` steps follows in any larger number of steps.
pub proof fn lemma_follows_later(n: nat, m: nat, rules: Seq<Rule>, x: i32, z: i32)
    requires
        n <= m,
        follows_in(n, rules, x, z),
    ensures
        follows_in(m, rules, x, z),
    decreases m,
{
    if n < m {
        lemma_follows_later(n, (m - 1) as nat, rules, x, z);
    }
}

/// From `x` before `y` and `y` before `z` follows `x` before `z`, unless a
/// rule puts `z` before `x`.
pub proof fn lemma_follows_join(rules: Seq<Rule>, x: i32, y: i32, z: i32)
    requires
        follows(rules, x, y),
        follows(rules, y, z),
        !is_rule(rules, z, x),
    ensures
        follows(rules, x, z),
{
    let n1 = choose|n: nat| follows_in(n, rules, x, y);
    let n2 = choose|n: nat| follows_in(n, rules, y, z);
    let m = if n1 <= n2 {
        n2
    } else {
        n1
    };
    lemma_follows_later(n1, m, rules, x, y);
    lemma_follows_later(n2, m, rules, y, z);
    lemma_follows_ends(n1, rules, x, y);
    assert(follows_in(m + 1, rules, x, z));
}

/// `ordered` holds every rule and, with `x` before `y` and `y` before `z`,
/// also `x` before `z`, unless a rule puts `z` before `x`.
pub open spec fn closed(ordered: Seq<Before>, rules: Seq<Rule>) -> bool {
    &&& forall|i: int| 0 <= i < rules.len() ==> holds(ordered, (#[trigger] rules[i]).0, rules[i].1)
    &&& forall|a: int, b: int|
        0 <= a < ordered.len() && 0 <= b < ordered.len() && (#[trigger] ordered[a]).1 == (
        #[trigger] ordered[b]).0 && !is_rule(rules, ordered[b].1, ordered[a].0) ==> holds(
            ordered,
            ordered[a].0,
            ordered[b].1,
        )
}

/// A closed list holds whatever follows from the rules.
pub proof fn lemma_closed_holds(n: nat, ordered: Seq<Before>, rules: Seq<Rule>, x: i32, z: i32)
    requires
        closed(ordered, rules),
        follows_in(n, rules, x, z),
    ensures
        holds(ordered, x, z),
    decreases n,
{
    if n == 0 {
        let i = choose|i: int| 0 <= i < rules.len() && #[trigger] rules[i] == Rule(x, z);
        assert(holds(ordered, rules[i].0, rules[i].1));
    } else if follows_in((n - 1) as nat, rules, x, z) {
        lemma_closed_holds((n - 1) as nat, ordered, rules, x, z);
    } else {
        let y = choose|y: i32| #[trigger]
            comes_second(rules, y) && follows_in((n - 1) as nat, rules, x, y) && follows_in(
                (n - 1) as nat,
                rules,
                y,
                z,
            ) && !is_rule(rules, z, x);
        lemma_closed_holds((n - 1) as nat, ordered, rules, x, y);
        lemma_closed_holds((n - 1) as nat, ordered, rules, y, z);
        let a = choose|i: int| 0 <= i < ordered.len() && #[trigger] ordered[i] == Before(x, y);
        let b = choose|i: int| 0 <= i < ordered.len() && #[trigger] ordered[i] == Before(y, z);
        assert(ordered[a].1 == ordered[b].0);
    }
}

/// Whether `x` before `z` is one of the rules.
pub fn has_rule(rules: &[Rule], x: i32, z: i32) -> (b: bool)
    ensures
        b == is_rule(rules@, x, z),
{
    let mut i: usize = 0;
    while i < rules.len()
        invariant
            i <= rules.len(),
            forall|k: int| 0 <= k < i ==> #[trigger] rules[k] != Rule(x, z),
        decreases rules.len() - i,
    {
        if rules[i].0 == x && rules[i].1 == z {
            return true;
        }
        i += 1;
    }
    false
}

/// Whether `x` before `z` is among `ordered`.
pub fn contains(ordered: &Vec<Before>, x: i32, z: i32) -> (b: bool)
    ensures
        b == holds(ordered@, x, z),
{
    let mut i: usize = 0;
    while i < ordered.len()
        invariant
            i <= ordered.len(),
            forall|k: int| 0 <= k < i ==> #[trigger] ordered[k] != Before(x, z),
        decreases ordered.len() - i,
    {
        if ordered[i].0 == x && ordered[i].1 == z {
            return true;
        }
        i += 1;
    }
    false
}

/// The pairs of rule numbers (`i`, `j`) for which `ordered` does not hold
/// "first page of rule `i` before second page of rule `j`".
pub open spec fn wanting(ordered: Seq<Before>, rules: Seq<Rule>) -> Set<(int, int)> {
    Set::new(
        |p: (int, int)|
            0 <= p.0 < rules.len() && 0 <= p.1 < rules.len() && !holds(
                ordered,
                rules[p.0].0,
                rules[p.1].1,
            ),
    )
}

/// Everything in `ordered` follows from the rules.
pub open spec fn sound(ordered: Seq<Before>, rules: Seq<Rule>) -> bool {
    forall|i: int|
        0 <= i < ordered.len() ==> follows(rules, (#[trigger] ordered[i]).0, ordered[i].1)
}

/// One more pair in the list leaves fewer pairs wanting.
proof fn lemma_wanting_shrinks(ordered: Seq<Before>, rules: Seq<Rule>, x: i32, z: i32)
    requires
        follows(rules, x, z),
        !holds(ordered, x, z),
    ensures
        wanting(ordered.push(Before(x, z)), rules).len() < wanting(ordered, rules).len(),
        wanting(ordered, rules).finite(),
{
    let n = rules.len() as int;
    let longer = ordered.push(Before(x, z));
    let k = choose|k: nat| follows_in(k, rules, x, z);
    lemma_follows_ends(k, rules, x, z);
    let i = choose|i: int| 0 <= i < rules.len() && (#[trigger] rules[i]).0 == x;
    let j = choose|j: int| 0 <= j < rules.len() && (#[trigger] rules[j]).1 == z;
    lemma_cell_set_finite(n, n);
    vstd::set_lib::lemma_len_subset(wanting(ordered, rules), cell_set(n, n));
    let less = wanting(ordered, rules).remove((i, j));
    assert(longer[ordered.len() as int] == Before(x, z));
    assert(holds(longer, x, z));
    assert forall|p: (int, int)| wanting(longer, rules).contains(p) implies less.contains(p) by {
        if holds(ordered, rules[p.0].0, rules[p.1].1) {
            let e = choose|e: int|
                0 <= e < ordered.len() && #[trigger] ordered[e] == Before(
                    rules[p.0].0,
                    rules[p.1].1,
                );
            assert(longer[e] == ordered[e]);
        }
    }
    vstd::set_lib::lemma_len_subset(wanting(longer, rules), less);
}

/// The pairs wanting are finitely many.
proof fn lemma_wanting_finite(ordered: Seq<Before>, rules: Seq<Rule>)
    ensures
        wanting(ordered, rules).finite(),
{
    let n = rules.len() as int;
    lemma_cell_set_finite(n, n);
    vstd::set_lib::lemma_len_subset(wanting(ordered, rules), cell_set(n, n));
}

/// A list keeps what it holds when one more pair is pushed.
proof fn lemma_holds_push(ordered: Seq<Before>, extra: Before, x: i32, z: i32)
    requires
        holds(ordered, x, z) || extra == Before(x, z),
    ensures
        holds(ordered.push(extra), x, z),
{
    if holds(ordered, x, z) {
        let e = choose|e: int| 0 <= e < ordered.len() && #[trigger] ordered[e] == Before(x, z);
        assert(ordered.push(extra)[e] == Before(x, z));
    } else {
        assert(ordered.push(extra)[ordered.len() as int] == Before(x, z));
    }
}

/// A list without repetition stays so when a pair that it does not hold is
/// pushed.
proof fn lemma_push_new(ordered: Seq<Before>, x: i32, z: i32)
    requires
        ordered.no_duplicates(),
        !holds(ordered, x, z),
    ensures
        ordered.push(Before(x, z)).no_duplicates(),
{
    let longer = ordered.push(Before(x, z));
    assert forall|i: int, j: int| 0 <= i < longer.len() && 0 <= j < longer.len() && i != j implies longer[i]
        != longer[j] by {
        if i < ordered.len() && j < ordered.len() {
        } else if i < ordered.len() {
            assert(ordered[i] != Before(x, z));
        } else {
            assert(ordered[j] != Before(x, z));
        }
    }
}

/// The pairs of pages whose order follows from the rules: every rule, and
/// with `x` before `y` and `y` before `z` also `x` before `z`, unless a rule
/// puts `z` before `x`.
pub fn run_logic(rules: &[Rule]) -> (ordered: Vec<Before>)
    ensures
        is_order_of(ordered@, rules@),
        ordered@.no_duplicates(),
{
    let mut ordered: Vec<Before> = Vec::new();
    let mut i: usize = 0;
    while i < rules.len()
        invariant
            i <= rules.len(),
            sound(ordered@, rules@),
            ordered@.no_duplicates(),
            forall|k: int| 0 <= k < i ==> holds(ordered@, (#[trigger] rules[k]).0, rules[k].1),
        decreases rules.len() - i,
    {
        let ghost before = ordered@;
        if !contains(&ordered, rules[i].0, rules[i].1) {
            ordered.push(Before(rules[i].0, rules[i].1));
            proof {
                assert(follows_in(0, rules@, rules[i as int].0, rules[i as int].1));
                lemma_push_new(before, rules[i as int].0, rules[i as int].1);
                assert forall|k: int| 0 <= k < i + 1 implies holds(
                    ordered@,
                    (#[trigger] rules[k]).0,
                    rules[k].1,
                ) by {
                    lemma_holds_push(
                        before,
                        Before(rules[i as int].0, rules[i as int].1),
                        rules[k].0,
                        rules[k].1,
                    );
                }
            }
        }
        i += 1;
    }
    let mut changed = true;
    while changed
        invariant
            sound(ordered@, rules@),
            ordered@.no_duplicates(),
            forall|k: int| 0 <= k < rules.len() ==> holds(ordered@, (#[trigger] rules[k]).0, rules[k].1),
            !changed ==> closed(ordered@, rules@),
        decreases wanting(ordered@, rules@).len(), (if changed { 1int } else { 0int }),
    {
        let ghost at_start = ordered@;
        changed = false;
        let mut a: usize = 0;
        proof {
            lemma_wanting_finite(at_start, rules@);
        }
        while a < ordered.len()
            invariant
                a <= ordered.len(),
                sound(ordered@, rules@),
                ordered@.no_duplicates(),
                forall|k: int|
                    0 <= k < rules.len() ==> holds(ordered@, (#[trigger] rules[k]).0, rules[k].1),
                !changed ==> ordered@ == at_start,
                changed ==> wanting(ordered@, rules@).len() < wanting(at_start, rules@).len(),
                !changed ==> forall|a2: int, b2: int|
                    0 <= a2 < a && 0 <= b2 < ordered.len() && (#[trigger] ordered[a2]).1 == (
                    #[trigger] ordered[b2]).0 && !is_rule(rules@, ordered[b2].1, ordered[a2].0)
                        ==> holds(ordered@, ordered[a2].0, ordered[b2].1),
            decreases wanting(ordered@, rules@).len(), ordered.len() - a,
        {
            let mut b: usize = 0;
            let ghost here = ordered@;
            while b < ordered.len()
                invariant
                    a < ordered.len(),
                    b <= ordered.len(),
                    ordered@.no_duplicates(),
                    ordered@ == here || wanting(ordered@, rules@).len() < wanting(here, rules@).len(),
                    sound(ordered@, rules@),
                    forall|k: int|
                        0 <= k < rules.len() ==> holds(
                            ordered@,
                            (#[trigger] rules[k]).0,
                            rules[k].1,
                        ),
                    !changed ==> ordered@ == at_start,
                    changed ==> wanting(ordered@, rules@).len() < wanting(at_start, rules@).len(),
                    !changed ==> forall|a2: int, b2: int|
                        0 <= a2 < a && 0 <= b2 < ordered.len() && (#[trigger] ordered[a2]).1 == (
                        #[trigger] ordered[b2]).0 && !is_rule(rules@, ordered[b2].1, ordered[a2].0)
                            ==> holds(ordered@, ordered[a2].0, ordered[b2].1),
                    !changed ==> forall|b2: int|
                        0 <= b2 < b && ordered[a as int].1 == (#[trigger] ordered[b2]).0 && !is_rule(
                            rules@,
                            ordered[b2].1,
                            ordered[a as int].0,
                        ) ==> holds(ordered@, ordered[a as int].0, ordered[b2].1),
                decreases wanting(ordered@, rules@).len(), ordered.len() - b,
            {
                let x = ordered[a].0;
                let y = ordered[a].1;
                let z = ordered[b].1;
                if y == ordered[b].0 && !has_rule(rules, z, x) && !contains(&ordered, x, z) {
                    let ghost before = ordered@;
                    proof {
                        lemma_follows_join(rules@, x, y, z);
                        lemma_push_new(before, x, z);
                        lemma_wanting_shrinks(before, rules@, x, z);
                        lemma_wanting_finite(at_start, rules@);
                        if changed {
                        } else {
                            assert(before == at_start);
                        }
                    }
                    ordered.push(Before(x, z));
                    proof {
                        assert forall|k: int| 0 <= k < rules.len() implies holds(
                            ordered@,
                            (#[trigger] rules[k]).0,
                            rules[k].1,
                        ) by {
                            lemma_holds_push(before, Before(x, z), rules[k].0, rules[k].1);
                        }
                    }
                    changed = true;
                }
                b += 1;
            }
            a += 1;
        }
    }
    proof {
        assert forall|x: i32, z: i32| #[trigger] holds(ordered@, x, z) <==> follows(
            rules@,
            x,
            z,
        ) by {
            if holds(ordered@, x, z) {
                let e = choose|e: int| 0 <= e < ordered.len() && #[trigger] ordered[e] == Before(x, z);
                assert(follows(rules@, ordered[e].0, ordered[e].1));
            }
            if follows(rules@, x, z) {
                let n = choose|n: nat| follows_in(n, rules@, x, z);
                lemma_closed_holds(n, ordered@, rules@, x, z);
            }
        }
    }
    ordered
}

/// The order that the list `ordered` states.
pub open spec fn listed(ordered: Seq<Before>) -> spec_fn(i32, i32) -> bool {
    |x: i32, z: i32| holds(ordered, x, z)
}

/// The order that follows from the rules.
pub open spec fn order_of(rules: Seq<Rule>) -> spec_fn(i32, i32) -> bool {
    |x: i32, z: i32| follows(rules, x, z)
}

/// A list of what follows from the rules states the order that follows from
/// them.
pub proof fn lemma_listed_order(ordered: Seq<Before>, rules: Seq<Rule>)
    requires
        is_order_of(ordered, rules),
    ensures
        listed(ordered) == order_of(rules),
{
    assert forall|x: i32, z: i32| #[trigger] listed(ordered)(x, z) == order_of(rules)(x, z) by {
        assert(holds(ordered, x, z) <==> follows(rules, x, z));
    }
    assert(listed(ordered) =~= order_of(rules));
}

/// Each page of `list` comes before the next.
pub open spec fn in_order(list: Seq<i32>, before: spec_fn(i32, i32) -> bool) -> bool {
    forall|i: int| 0 <= i < list.len() - 1 ==> before(#[trigger] list[i], list[i + 1])
}

/// Whether each page of `list` comes before the next by `ordered`.
pub fn is_valid_order(list: &[i32], ordered: &Vec<Before>) -> (valid: bool)
    ensures
        valid == in_order(list@, listed(ordered@)),
{
    let mut is_in_order = true;
    let mut i: usize = 1;
    while i < list.len()
        invariant
            1 <= i,
            is_in_order == forall|k: int|
                0 <= k < i - 1 && k < list.len() - 1 ==> holds(
                    ordered@,
                    #[trigger] list[k],
                    list[k + 1],
                ),
        decreases list.len() - i,
    {
        if !contains(ordered, list[i - 1], list[i]) {
            is_in_order = false;
            assert(!holds(ordered@, list[i - 1], list[i - 1 + 1]));
        }
        i += 1;
    }
    proof {
        if is_in_order {
            assert forall|k: int| 0 <= k < list.len() - 1 implies listed(ordered@)(
                #[trigger] list[k],
                list[k + 1],
            ) by {
                assert(holds(ordered@, list[k], list[k + 1]));
            }
        } else {
            let k = choose|k: int|
                0 <= k < i - 1 && k < list.len() - 1 && !holds(
                    ordered@,
                    #[trigger] list[k],
                    list[k + 1],
                );
            assert(!listed(ordered@)(list[k], list[k + 1]));
        }
    }
    is_in_order
}

/// Of any two places of `list`, the order puts the page of exactly one
/// before that of the other.
pub open spec fn decided(list: Seq<i32>, before: spec_fn(i32, i32) -> bool) -> bool {
    forall|i: int, j: int|
        0 <= i < j < list.len() ==> (before(#[trigger] list[i], #[trigger] list[j]) != before(
            list[j],
            list[i],
        ))
}

/// 1 if the order does not put the page at `i` before the page at `j`.
pub open spec fn upset(list: Seq<i32>, before: spec_fn(i32, i32) -> bool, i: int, j: int) -> nat {
    if before(list[i], list[j]) {
        0
    } else {
        1
    }
}

/// The number of places `i` below `n` whose page the order does not put
/// before the page at `j`.
pub open spec fn upsets_at(list: Seq<i32>, before: spec_fn(i32, i32) -> bool, j: int, n: int) -> nat
    decreases n,
{
    if n <= 0 {
        0
    } else {
        upsets_at(list, before, j, n - 1) + upset(list, before, n - 1, j)
    }
}

/// The number of pairs of places that stand in the wrong order, among the
/// first `m` places.
pub open spec fn upsets(list: Seq<i32>, before: spec_fn(i32, i32) -> bool, m: int) -> nat
    decreases m,
{
    if m <= 0 {
        0
    } else {
        upsets(list, before, m - 1) + upsets_at(list, before, m - 1, m - 1)
    }
}

/// `list` with the neighbours at `p` and `p + 1` exchanged.
pub open spec fn swapped(list: Seq<i32>, p: int) -> Seq<i32> {
    list.update(p, list[p + 1]).update(p + 1, list[p])
}

/// The first place from `from` on whose page does not come before the
/// next, or -1 if there is none.
pub open spec fn first_upset(list: Seq<i32>, before: spec_fn(i32, i32) -> bool, from: int) -> int
    decreases list.len() - from,
{
    if from < 0 || from + 1 >= list.len() {
        -1
    } else if !before(list[from], list[from + 1]) {
        from
    } else {
        first_upset(list, before, from + 1)
    }
}

/// The pages of `list` put in order: as long as some page does not come
/// before the next, the first such page changes places with the next.
pub open spec fn mended(list: Seq<i32>, before: spec_fn(i32, i32) -> bool) -> Seq<i32>
    decreases upsets(list, before, list.len() as int),
    when decided(list, before)
{
    let p = first_upset(list, before, 0);
    if 0 <= p < list.len() - 1 && !before(list[p], list[p + 1]) {
        proof {
            lemma_swap_mends(list, swapped(list, p), before, p, list.len() as int);
        }
        mended(swapped(list, p), before)
    } else {
        list
    }
}

/// The upsets of a page with the first `n` places depend on the page and
/// those places only.
pub proof fn lemma_upsets_at_pages(
    a: Seq<i32>,
    b: Seq<i32>,
    before: spec_fn(i32, i32) -> bool,
    ja: int,
    jb: int,
    n: int,
)
    requires
        0 <= n,
        0 <= ja < a.len(),
        0 <= jb < b.len(),
        n <= a.len(),
        n <= b.len(),
        a[ja] == b[jb],
        forall|k: int| 0 <= k < n ==> a[k] == b[k],
    ensures
        upsets_at(a, before, ja, n) == upsets_at(b, before, jb, n),
    decreases n,
{
    if n > 0 {
        lemma_upsets_at_pages(a, b, before, ja, jb, n - 1);
    }
}

/// Exchanging the neighbours at `p` and `p + 1` leaves the upsets of a later
/// place `j` with the places below as many as they were.
pub proof fn lemma_upsets_at_swapped(
    a: Seq<i32>,
    b: Seq<i32>,
    before: spec_fn(i32, i32) -> bool,
    p: int,
    j: int,
    n: int,
)
    requires
        0 <= p,
        p + 1 < j < a.len(),
        0 <= n <= j,
        a.len() == b.len(),
        b[p] == a[p + 1],
        b[p + 1] == a[p],
        forall|k: int| 0 <= k < a.len() && k != p && k != p + 1 ==> a[k] == b[k],
    ensures
        n <= p ==> upsets_at(a, before, j, n) == upsets_at(b, before, j, n),
        n == p + 1 ==> upsets_at(a, before, j, n) + upset(a, before, p + 1, j) == upsets_at(
            b,
            before,
            j,
            n,
        ) + upset(a, before, p, j),
        n >= p + 2 ==> upsets_at(a, before, j, n) == upsets_at(b, before, j, n),
    decreases n,
{
    if n > 0 {
        lemma_upsets_at_swapped(a, b, before, p, j, n - 1);
    }
}

/// Exchanging two neighbours that stand in the wrong order, in a list that
/// the order decides, leaves one upset fewer.
pub proof fn lemma_swap_mends(
    a: Seq<i32>,
    b: Seq<i32>,
    before: spec_fn(i32, i32) -> bool,
    p: int,
    m: int,
)
    requires
        0 <= p,
        p + 1 < a.len(),
        0 <= m <= a.len(),
        b == swapped(a, p),
        !before(a[p], a[p + 1]),
        decided(a, before),
    ensures
        m <= p ==> upsets(a, before, m) == upsets(b, before, m),
        m >= p + 2 ==> upsets(a, before, m) == upsets(b, before, m) + 1,
    decreases m,
{
    assert(before(a[p], a[p + 1]) != before(a[p + 1], a[p]));
    if m > 0 {
        lemma_swap_mends(a, b, before, p, m - 1);
        let j = m - 1;
        if j < p {
            lemma_upsets_at_pages(a, b, before, j, j, j);
        } else if j == p {
        } else if j == p + 1 {
            lemma_swap_mends(a, b, before, p, p);
            lemma_upsets_at_pages(a, b, before, p, p + 1, p);
            lemma_upsets_at_pages(a, b, before, p + 1, p, p);
            assert(upsets_at(a, before, p + 1, p + 1) == upsets_at(a, before, p + 1, p) + upset(
                a,
                before,
                p,
                p + 1,
            ));
            assert(upsets_at(b, before, p + 1, p + 1) == upsets_at(b, before, p + 1, p) + upset(
                b,
                before,
                p,
                p + 1,
            ));
            assert(upsets(a, before, p + 1) == upsets(a, before, p) + upsets_at(a, before, p, p));
            assert(upsets(b, before, p + 1) == upsets(b, before, p) + upsets_at(b, before, p, p));
            assert(upsets(a, before, p + 2) == upsets(a, before, p + 1) + upsets_at(
                a,
                before,
                p + 1,
                p + 1,
            ));
            assert(upsets(b, before, p + 2) == upsets(b, before, p + 1) + upsets_at(
                b,
                before,
                p + 1,
                p + 1,
            ));
        } else {
            lemma_upsets_at_swapped(a, b, before, p, j, j);
        }
    }
}

/// Exchanging two neighbours keeps a decided list decided.
pub proof fn lemma_swap_decided(a: Seq<i32>, before: spec_fn(i32, i32) -> bool, p: int)
    requires
        0 <= p,
        p + 1 < a.len(),
        decided(a, before),
    ensures
        decided(swapped(a, p), before),
{
    let b = swapped(a, p);
    let at = |k: int|
        if k == p {
            p + 1
        } else if k == p + 1 {
            p
        } else {
            k
        };
    assert forall|i: int, j: int| 0 <= i < j < b.len() implies (before(
        #[trigger] b[i],
        #[trigger] b[j],
    ) != before(b[j], b[i])) by {
        let (i2, j2) = (at(i), at(j));
        assert(b[i] == a[i2] && b[j] == a[j2]);
        if i2 < j2 {
            assert(before(a[i2], a[j2]) != before(a[j2], a[i2]));
        } else {
            assert(before(a[j2], a[i2]) != before(a[i2], a[j2]));
        }
    }
}

/// Exchanging two neighbours keeps the pages of a list.
pub proof fn lemma_swap_keeps_pages(s: Seq<i32>, p: int)
    requires
        0 <= p,
        p + 1 < s.len(),
    ensures
        swapped(s, p).to_multiset() == s.to_multiset(),
{
    let first = s.update(p, s[p + 1]);
    vstd::seq_lib::to_multiset_update(s, p, s[p + 1]);
    vstd::seq_lib::to_multiset_update(first, p + 1, s[p]);
    vstd::seq_lib::to_multiset_contains(s, s[p]);
    vstd::seq_lib::to_multiset_contains(s, s[p + 1]);
    assert(s.contains(s[p]));
    assert(s.contains(s[p + 1]));
    assert(s.to_multiset().insert(s[p + 1]).remove(s[p]).insert(s[p]).remove(s[p + 1])
        =~= s.to_multiset());
}

/// Where no page up to `n` fails to come before the next, the first upset
/// from the start is the first from `n` on.
proof fn lemma_first_upset(list: Seq<i32>, before: spec_fn(i32, i32) -> bool, n: int)
    requires
        0 <= n,
        forall|k: int| 0 <= k < n && k < list.len() - 1 ==> before(#[trigger] list[k], list[k + 1]),
    ensures
        first_upset(list, before, 0) == first_upset(list, before, n),
    decreases n,
{
    if n > 0 {
        lemma_first_upset(list, before, n - 1);
        if n - 1 + 1 < list.len() {
            assert(before(list[n - 1], list[n - 1 + 1]));
        }
    }
}

/// What `mended` gives is in order and holds the pages of the list.
pub proof fn lemma_mended(list: Seq<i32>, before: spec_fn(i32, i32) -> bool)
    requires
        decided(list, before),
    ensures
        in_order(mended(list, before), before),
        mended(list, before).to_multiset() == list.to_multiset(),
        mended(list, before).len() == list.len(),
    decreases upsets(list, before, list.len() as int),
{
    let p = first_upset(list, before, 0);
    if 0 <= p < list.len() - 1 && !before(list[p], list[p + 1]) {
        lemma_swap_mends(list, swapped(list, p), before, p, list.len() as int);
        lemma_swap_decided(list, before, p);
        lemma_swap_keeps_pages(list, p);
        lemma_mended(swapped(list, p), before);
    } else {
        lemma_no_upset(list, before, 0);
    }
}

/// Where there is no first upset from `from` on, every page from there on
/// comes before the next.
proof fn lemma_no_upset(list: Seq<i32>, before: spec_fn(i32, i32) -> bool, from: int)
    requires
        0 <= from,
        !(0 <= first_upset(list, before, from) < list.len() - 1 && !before(
            list[first_upset(list, before, from)],
            list[first_upset(list, before, from) + 1],
        )),
    ensures
        forall|k: int| from <= k < list.len() - 1 ==> before(#[trigger] list[k], list[k + 1]),
    decreases list.len() - from,
{
    if from + 1 < list.len() {
        if before(list[from], list[from + 1]) {
            lemma_no_upset(list, before, from + 1);
            assert forall|k: int| from <= k < list.len() - 1 implies before(
                #[trigger] list[k],
                list[k + 1],
            ) by {
                if k == from {
                } else {
                    assert(from + 1 <= k);
                }
            }
        }
    }
}

/// The pages of `list` in an order in which each comes before the next by
/// `ordered`: as long as some page does not come before the next, the first
/// such page changes places with the next.
pub fn fix_order(list: &[i32], ordered: &Vec<Before>) -> (fixed: Vec<i32>)
    requires
        decided(list@, listed(ordered@)),
    ensures
        fixed@ == mended(list@, listed(ordered@)),
        in_order(fixed@, listed(ordered@)),
        fixed@.to_multiset() == list@.to_multiset(),
{
    let ghost before = listed(ordered@);
    let mut fixed: Vec<i32> = Vec::new();
    let mut k: usize = 0;
    while k < list.len()
        invariant
            k <= list.len(),
            fixed@ == list@.take(k as int),
        decreases list.len() - k,
    {
        fixed.push(list[k]);
        proof {
            assert(list@.take(k + 1) =~= list@.take(k as int).push(list[k as int]));
        }
        k += 1;
    }
    proof {
        assert(list@.take(k as int) =~= list@);
        lemma_mended(list@, before);
    }
    let mut is_in_order = false;
    while !is_in_order
        invariant
            before == listed(ordered@),
            fixed.len() == list.len(),
            decided(fixed@, before),
            mended(fixed@, before) == mended(list@, before),
            is_in_order ==> mended(fixed@, before) == fixed@,
        decreases upsets(fixed@, before, fixed.len() as int), (if is_in_order { 0int } else { 1int }),
    {
        is_in_order = true;
        let mut i: usize = 1;
        while is_in_order && i < fixed.len()
            invariant
                before == listed(ordered@),
                1 <= i,
                fixed.len() == list.len(),
                forall|k: int|
                    0 <= k < i - 1 && k < fixed.len() - 1 ==> before(
                        #[trigger] fixed@[k],
                        fixed@[k + 1],
                    ),
                !is_in_order ==> i < fixed.len() && !before(fixed@[i - 1], fixed@[i as int]),
            decreases fixed.len() - i + (if is_in_order { 1int } else { 0int }),
        {
            if !contains(ordered, fixed[i - 1], fixed[i]) {
                is_in_order = false;
            } else {
                assert(before(fixed@[i - 1], fixed@[i - 1 + 1]));
                i += 1;
            }
        }
        proof {
            lemma_first_upset(fixed@, before, i - 1);
        }
        if !is_in_order {
            let ghost at = fixed@;
            let x = fixed[i - 1];
            let y = fixed[i];
            fixed.set(i - 1, y);
            fixed.set(i, x);
            proof {
                let p = i - 1;
                assert(fixed@ =~= swapped(at, p));
                lemma_swap_mends(at, fixed@, before, p, at.len() as int);
                lemma_swap_decided(at, before, p);
            }
        }
    }
    fixed
}

/// `line` writes a rule: two page numbers with a bar between them.
pub open spec fn is_rule_line(line: Seq<char>) -> bool {
    fields(line, '|').len() == 2 && is_i32(fields(line, '|')[0]) && is_i32(fields(line, '|')[1])
}

/// `line` writes an update: page numbers with commas between them.
pub open spec fn is_update_line(line: Seq<char>) -> bool {
    forall|i: int| 0 <= i < fields(line, ',').len() ==> is_i32(#[trigger] fields(line, ',')[i])
}

/// The rule that `line` writes.
pub open spec fn rule_of(line: Seq<char>) -> Rule {
    Rule(
        numeral_value(fields(line, '|')[0]) as i32,
        numeral_value(fields(line, '|')[1]) as i32,
    )
}

/// The update that `line` writes.
pub open spec fn update_of(line: Seq<char>) -> Seq<i32> {
    Seq::new(fields(line, ',').len(), |i: int| numeral_value(fields(line, ',')[i]) as i32)
}

/// The place of the first empty line among `ls`, or their number if none is
/// empty.
pub open spec fn first_blank(ls: Seq<Seq<char>>) -> int
    decreases ls.len(),
{
    if ls.len() == 0 || ls[0].len() == 0 {
        0
    } else {
        1 + first_blank(ls.drop_first())
    }
}

/// The lines `ls` are rules, an empty line, and updates.
pub open spec fn is_manual(ls: Seq<Seq<char>>) -> bool {
    let blank = first_blank(ls);
    &&& 0 <= blank < ls.len()
    &&& forall|i: int| 0 <= i < blank ==> is_rule_line(#[trigger] ls[i])
    &&& forall|i: int| blank < i < ls.len() ==> is_update_line(#[trigger] ls[i])
}

/// The rules of the manual `ls`.
pub open spec fn rules_of(ls: Seq<Seq<char>>) -> Seq<Rule> {
    Seq::new(first_blank(ls) as nat, |i: int| rule_of(ls[i]))
}

/// The updates of the manual `ls`.
pub open spec fn updates_of(ls: Seq<Seq<char>>) -> Seq<Seq<i32>> {
    Seq::new((ls.len() - first_blank(ls) - 1) as nat, |i: int| update_of(ls[first_blank(ls) + 1 + i]))
}

/// `first_blank` is the place of the first empty line.
proof fn lemma_first_blank(ls: Seq<Seq<char>>, n: int)
    requires
        0 <= n <= ls.len(),
        forall|i: int| 0 <= i < n ==> (#[trigger] ls[i]).len() > 0,
        n == ls.len() || ls[n].len() == 0,
    ensures
        first_blank(ls) == n,
    decreases n,
{
    if n > 0 {
        let rest = ls.drop_first();
        assert forall|i: int| 0 <= i < n - 1 implies (#[trigger] rest[i]).len() > 0 by {
            assert(rest[i] == ls[i + 1]);
        }
        assert(ls[0].len() > 0);
        lemma_first_blank(rest, n - 1);
    }
}

/// The rules and the updates of the manual `input`.
pub fn parse_manual(input: &str) -> (manual: (Vec<Rule>, Vec<Vec<i32>>))
    requires
        is_manual(lines(input@)),
    ensures
        manual.0@ == rules_of(lines(input@)),
        manual.1.len() == updates_of(lines(input@)).len(),
        forall|i: int|
            0 <= i < manual.1.len() ==> (#[trigger] manual.1[i])@ == updates_of(lines(input@))[i],
{
    let rows = lines_of(input);
    let ghost ls = lines(input@);
    proof {
        assert(texts(rows@).len() == rows.len());
        assert forall|r: int| 0 <= r < ls.len() implies (#[trigger] rows[r])@ == ls[r] by {
            assert(texts(rows@)[r] == rows[r]@);
        }
    }
    let mut rules_vec: Vec<Rule> = Vec::new();
    let mut i: usize = 0;
    while i < rows.len() && rows[i].len() > 0
        invariant
            is_manual(ls),
            rows.len() == ls.len(),
            forall|r: int| 0 <= r < ls.len() ==> (#[trigger] rows[r])@ == ls[r],
            i <= rows.len(),
            i <= first_blank(ls),
            forall|k: int| 0 <= k < i ==> (#[trigger] ls[k]).len() > 0,
            rules_vec.len() == i,
            forall|k: int| 0 <= k < i ==> #[trigger] rules_vec[k] == rule_of(ls[k]),
        decreases rows.len() - i,
    {
        proof {
            if i == first_blank(ls) {
                lemma_first_blank_is_blank(ls);
            }
            assert(is_rule_line(ls[i as int]));
        }
        let split = split_on(&rows[i], '|');
        proof {
            assert(texts(split@).len() == split.len());
            assert(texts(split@)[0] == split[0]@);
            assert(texts(split@)[1] == split[1]@);
        }
        rules_vec.push(Rule(read_i32(&split[0]).unwrap(), read_i32(&split[1]).unwrap()));
        i += 1;
    }
    proof {
        lemma_first_blank(ls, i as int);
        assert(rules_vec@ =~= rules_of(ls));
    }
    let blank = i;
    let mut orders_vec: Vec<Vec<i32>> = Vec::new();
    i = i + 1;
    while i < rows.len()
        invariant
            is_manual(ls),
            rows.len() == ls.len(),
            forall|r: int| 0 <= r < ls.len() ==> (#[trigger] rows[r])@ == ls[r],
            blank == first_blank(ls),
            blank < i <= rows.len(),
            orders_vec.len() == i - blank - 1,
            forall|k: int|
                0 <= k < orders_vec.len() ==> (#[trigger] orders_vec[k])@ == update_of(
                    ls[blank + 1 + k],
                ),
        decreases rows.len() - i,
    {
        proof {
            assert(is_update_line(ls[i as int]));
        }
        let split = split_on(&rows[i], ',');
        let mut pages: Vec<i32> = Vec::new();
        let mut j: usize = 0;
        proof {
            assert(texts(split@).len() == split.len());
        }
        while j < split.len()
            invariant
                i < ls.len(),
                is_update_line(ls[i as int]),
                texts(split@) == fields(ls[i as int], ','),
                j <= split.len(),
                pages.len() == j,
                forall|k: int| 0 <= k < j ==> #[trigger] pages[k] == update_of(ls[i as int])[k],
            decreases split.len() - j,
        {
            proof {
                assert(texts(split@).len() == split.len());
                assert(texts(split@)[j as int] == split[j as int]@);
                assert(is_i32(fields(ls[i as int], ',')[j as int]));
            }
            pages.push(read_i32(&split[j]).unwrap());
            j += 1;
        }
        proof {
            assert(texts(split@).len() == split.len());
            assert(pages@ =~= update_of(ls[i as int]));
        }
        orders_vec.push(pages);
        i += 1;
    }
    (rules_vec, orders_vec)
}

/// `first_blank` lies within the lines.
proof fn lemma_first_blank_bounds(ls: Seq<Seq<char>>)
    ensures
        0 <= first_blank(ls) <= ls.len(),
    decreases ls.len(),
{
    if !(ls.len() == 0 || ls[0].len() == 0) {
        lemma_first_blank_bounds(ls.drop_first());
    }
}

/// Where there is a first empty line, it is empty.
proof fn lemma_first_blank_is_blank(ls: Seq<Seq<char>>)
    requires
        0 <= first_blank(ls) < ls.len(),
    ensures
        ls[first_blank(ls)].len() == 0,
    decreases ls.len(),
{
    if !(ls.len() == 0 || ls[0].len() == 0) {
        let rest = ls.drop_first();
        assert(first_blank(ls) == 1 + first_blank(rest));
        lemma_first_blank_bounds(rest);
        lemma_first_blank_is_blank(rest);
        assert(rest[first_blank(rest)] == ls[first_blank(rest) + 1]);
    }
}

/// The page in the middle of `list`.
pub open spec fn middle(list: Seq<i32>) -> int {
    list[list.len() as int / 2] as int
}

/// The sum of the middle pages of those of `updates` that are in order.
pub open spec fn sum_valid(updates: Seq<Seq<i32>>, before: spec_fn(i32, i32) -> bool) -> int
    decreases updates.len(),
{
    if updates.len() == 0 {
        0
    } else {
        sum_valid(updates.drop_last(), before) + (if in_order(updates.last(), before) {
            middle(updates.last())
        } else {
            0
        })
    }
}

/// 32-bit arithmetic can add up the middle pages of the updates in order,
/// one after the other, and none of these updates is empty.
pub open spec fn sum_valid_fits(updates: Seq<Seq<i32>>, before: spec_fn(i32, i32) -> bool) -> bool
    decreases updates.len(),
{
    updates.len() == 0 || (sum_valid_fits(updates.drop_last(), before) && i32::MIN <= sum_valid(
        updates,
        before,
    ) <= i32::MAX && updates.last().len() > 0)
}

/// Arithmetic that can add up all middle pages can add up the first.
proof fn lemma_sum_valid_prefix(updates: Seq<Seq<i32>>, before: spec_fn(i32, i32) -> bool, n: int)
    requires
        0 <= n <= updates.len(),
        sum_valid_fits(updates, before),
    ensures
        sum_valid_fits(updates.take(n), before),
    decreases updates.len() - n,
{
    if n < updates.len() {
        lemma_sum_valid_prefix(updates, before, n + 1);
        assert(updates.take(n + 1).drop_last() =~= updates.take(n));
    } else {
        assert(updates.take(n) =~= updates);
    }
}

/// The sum of the middle pages of those updates of the manual `input` that
/// are in the order that follows from its rules.
pub fn part1(input: &str) -> (sum: i32)
    requires
        is_manual(lines(input@)),
        sum_valid_fits(updates_of(lines(input@)), order_of(rules_of(lines(input@)))),
    ensures
        sum == sum_valid(updates_of(lines(input@)), order_of(rules_of(lines(input@)))),
{
    let (rules_vec, orders_vec) = parse_manual(input);
    let ghost updates = updates_of(lines(input@));
    let ordered = run_logic(rules_vec.as_slice());
    let ghost before = order_of(rules_of(lines(input@)));
    proof {
        lemma_listed_order(ordered@, rules_vec@);
    }
    let mut result: i32 = 0;
    let mut i: usize = 0;
    proof {
        assert(updates.take(0) =~= Seq::<Seq<i32>>::empty());
    }
    while i < orders_vec.len()
        invariant
            before == listed(ordered@),
            orders_vec.len() == updates.len(),
            forall|k: int| 0 <= k < orders_vec.len() ==> (#[trigger] orders_vec[k])@ == updates[k],
            sum_valid_fits(updates, before),
            i <= orders_vec.len(),
            result == sum_valid(updates.take(i as int), before),
        decreases orders_vec.len() - i,
    {
        let v = &orders_vec[i];
        proof {
            assert(updates.take(i + 1).drop_last() =~= updates.take(i as int));
            assert(updates.take(i + 1).last() == updates[i as int]);
            lemma_sum_valid_prefix(updates, before, i + 1);
        }
        let valid = is_valid_order(v.as_slice(), &ordered);
        if valid {
            //find middle number
            let size = v.len();
            result += v[size / 2];
        }
        i += 1;
    }
    proof {
        assert(updates.take(i as int) =~= updates);
    }
    result
}

/// The sum of the middle pages of those of `updates` that are out of
/// order, each taken after its pages have been put in order.
pub open spec fn sum_fixed(updates: Seq<Seq<i32>>, before: spec_fn(i32, i32) -> bool) -> int
    decreases updates.len(),
{
    if updates.len() == 0 {
        0
    } else {
        sum_fixed(updates.drop_last(), before) + (if in_order(updates.last(), before) {
            0
        } else {
            middle(mended(updates.last(), before))
        })
    }
}

/// Every update that is out of order can be put in order, the order
/// deciding between any two of its pages, and 32-bit arithmetic can add up
/// the middle pages.
pub open spec fn can_fix(updates: Seq<Seq<i32>>, before: spec_fn(i32, i32) -> bool) -> bool
    decreases updates.len(),
{
    updates.len() == 0 || (can_fix(updates.drop_last(), before) && i32::MIN <= sum_fixed(
        updates,
        before,
    ) <= i32::MAX && (!in_order(updates.last(), before) ==> decided(updates.last(), before)))
}

/// What can be fixed as a whole can be fixed in its first part.
proof fn lemma_can_fix_prefix(updates: Seq<Seq<i32>>, before: spec_fn(i32, i32) -> bool, n: int)
    requires
        0 <= n <= updates.len(),
        can_fix(updates, before),
    ensures
        can_fix(updates.take(n), before),
    decreases updates.len() - n,
{
    if n < updates.len() {
        lemma_can_fix_prefix(updates, before, n + 1);
        assert(updates.take(n + 1).drop_last() =~= updates.take(n));
    } else {
        assert(updates.take(n) =~= updates);
    }
}

/// The sum of the middle pages of those updates of the manual `input` that
/// are out of order, each taken after its pages have been put in the order
/// that follows from the rules.
pub fn part2(input: &str) -> (sum: i32)
    requires
        is_manual(lines(input@)),
        can_fix(updates_of(lines(input@)), order_of(rules_of(lines(input@)))),
    ensures
        sum == sum_fixed(updates_of(lines(input@)), order_of(rules_of(lines(input@)))),
{
    let (rules_vec, orders_vec) = parse_manual(input);
    let ghost updates = updates_of(lines(input@));
    let ordered = run_logic(rules_vec.as_slice());
    let ghost before = order_of(rules_of(lines(input@)));
    proof {
        lemma_listed_order(ordered@, rules_vec@);
    }
    let mut result: i32 = 0;
    let mut i: usize = 0;
    proof {
        assert(updates.take(0) =~= Seq::<Seq<i32>>::empty());
    }
    while i < orders_vec.len()
        invariant
            before == listed(ordered@),
            orders_vec.len() == updates.len(),
            forall|k: int| 0 <= k < orders_vec.len() ==> (#[trigger] orders_vec[k])@ == updates[k],
            can_fix(updates, before),
            i <= orders_vec.len(),
            result == sum_fixed(updates.take(i as int), before),
        decreases orders_vec.len() - i,
    {
        let v = &orders_vec[i];
        proof {
            assert(updates.take(i + 1).drop_last() =~= updates.take(i as int));
            assert(updates.take(i + 1).last() == updates[i as int]);
            lemma_can_fix_prefix(updates, before, i + 1);
        }
        let valid = is_valid_order(v.as_slice(), &ordered);
        if !valid {
            //fix the order and find the middle page
            let new_order = fix_order(v.as_slice(), &ordered);
            let size = new_order.len();
            proof {
                vstd::seq_lib::to_multiset_len(new_order@);
                vstd::seq_lib::to_multiset_len(v@);
            }
            result += new_order[size / 2];
        }
        i += 1;
    }
    proof {
        assert(updates.take(i as int) =~= updates);
    }
    result
}

} // verus!
