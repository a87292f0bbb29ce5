//! Reports of levels: a report is safe when its levels only rise or only
//! fall, each time by one, two or three.

use crate::tally::ind;
use crate::text::{is_i32, lines, lines_of, numeral_value, read_i32, split_words, texts, words};
use vstd::prelude::*;

verus! {

/// Each level is below the one before it, by 1 to 3.
pub open spec fn falls(levels: Seq<i32>) -> bool {
    forall|i: int| 0 <= i < levels.len() - 1 ==> 1 <= (#[trigger] levels[i]) - levels[i + 1] <= 3
}

/// Each level is above the one before it, by 1 to 3.
pub open spec fn rises(levels: Seq<i32>) -> bool {
    forall|i: int| 0 <= i < levels.len() - 1 ==> 1 <= levels[i + 1] - (#[trigger] levels[i]) <= 3
}

/// The report only falls or only rises, gently.
pub open spec fn safe(levels: Seq<i32>) -> bool {
    falls(levels) || rises(levels)
}

/// The report is safe, or becomes safe when one level is left out.
pub open spec fn damp_safe(levels: Seq<i32>) -> bool {
    safe(levels) || exists|i: int| 0 <= i < levels.len() && safe(#[trigger] levels.remove(i))
}

/// Every word of `line` writes a level.
pub open spec fn is_report(line: Seq<char>) -> bool {
    forall|j: int| 0 <= j < words(line).len() ==> is_i32(#[trigger] words(line)[j])
}

/// Every line of `input` is a report.
pub open spec fn well_formed(input: Seq<char>) -> bool {
    forall|i: int| 0 <= i < lines(input).len() ==> is_report(#[trigger] lines(input)[i])
}

/// The levels that `line` lists.
pub open spec fn report(line: Seq<char>) -> Seq<i32> {
    Seq::new(words(line).len(), |j: int| numeral_value(words(line)[j]) as i32)
}

/// The number of lines whose report `judge` accepts.
pub open spec fn tally_reports(ls: Seq<Seq<char>>, judge: spec_fn(Seq<i32>) -> bool) -> nat
    decreases ls.len(),
{
    if ls.len() == 0 {
        0
    } else {
        tally_reports(ls.drop_last(), judge) + ind(judge(report(ls.last())))
    }
}

/// The judge that accepts the safe reports.
pub open spec fn judge_safe() -> spec_fn(Seq<i32>) -> bool {
    |levels: Seq<i32>| safe(levels)
}

/// The judge that accepts the reports that are safe when one level may be
/// left out.
pub open spec fn judge_damp_safe() -> spec_fn(Seq<i32>) -> bool {
    |levels: Seq<i32>| damp_safe(levels)
}

/// Whether the report is safe.
pub fn is_safe(levels: &[i32]) -> (b: bool)
    ensures
        b == safe(levels@),
{
    let n = levels.len();
    let mut acc: i64 = 0;
    let mut i: usize = 1;
    while i < n
        invariant
            n == levels.len(),
            1 <= i,
            i <= n || n == 0,
            i == 1 ==> acc == 0,
            i > 1 ==> acc == levels[0] - levels[1] && acc != 0,
            acc > 0 ==> forall|j: int| 0 <= j < i - 1 ==> 1 <= (#[trigger] levels[j]) - levels[j + 1] <= 3,
            acc < 0 ==> forall|j: int| 0 <= j < i - 1 ==> 1 <= levels[j + 1] - (#[trigger] levels[j]) <= 3,
        decreases n - i,
    {
        let diff: i64 = levels[i - 1] as i64 - levels[i] as i64;
        if diff > 3 || diff == 0 || diff < -3 {
            proof {
                let k = i - 1;
                assert(!(1 <= levels[k] - levels[k + 1] <= 3));
                assert(!(1 <= levels[k + 1] - levels[k] <= 3));
            }
            return false;
        }
        if acc == 0 {
            acc = diff;
        } else if (acc > 0) != (diff > 0) {
            proof {
                let k = i - 1;
                assert(!(1 <= levels[0int] - levels[1int] <= 3) || !(1 <= levels[k] - levels[k + 1]
                    <= 3));
                assert(!(1 <= levels[1int] - levels[0int] <= 3) || !(1 <= levels[k + 1] - levels[k]
                    <= 3));
            }
            return false;
        }
        i += 1;
    }
    true
}

/// Whether the report is safe, or would be with one of its levels left out.
pub fn is_damp_safe(levels: &[i32]) -> (b: bool)
    ensures
        b == damp_safe(levels@),
{
    if is_safe(levels) {
        return true;
    }
    let n = levels.len();
    let mut i: usize = 0;
    while i < n
        invariant
            n == levels.len(),
            i <= n,
            forall|k: int| 0 <= k < i ==> !safe(#[trigger] levels@.remove(k)),
        decreases n - i,
    {
        let mut damp_report: Vec<i32> = Vec::with_capacity(n - 1);
        let mut j: usize = 0;
        while j < n
            invariant
                n == levels.len(),
                i < n,
                j <= n,
                j <= i ==> damp_report@ == levels@.subrange(0, j as int),
                j > i ==> damp_report@ == levels@.subrange(0, i as int) + levels@.subrange(
                    i + 1,
                    j as int,
                ),
            decreases n - j,
        {
            if j != i {
                damp_report.push(levels[j]);
            }
            proof {
                if j < i {
                    assert(levels@.subrange(0, j + 1) =~= levels@.subrange(0, j as int).push(
                        levels[j as int],
                    ));
                } else if j == i {
                    assert(levels@.subrange(0, i as int) + levels@.subrange(i + 1, j + 1)
                        =~= levels@.subrange(0, j as int));
                } else {
                    assert(levels@.subrange(0, i as int) + levels@.subrange(i + 1, j + 1) =~= (
                    levels@.subrange(0, i as int) + levels@.subrange(i + 1, j as int)).push(
                        levels[j as int],
                    ));
                }
            }
            j += 1;
        }
        proof {
            assert(damp_report@ =~= levels@.remove(i as int));
        }
        if is_safe(damp_report.as_slice()) {
            return true;
        }
        i += 1;
    }
    false
}

/// The levels that the report `line` lists.
pub fn parse_report(line: &Vec<char>) -> (levels: Vec<i32>)
    requires
        is_report(line@),
    ensures
        levels@ == report(line@),
{
    let tokens = split_words(line);
    let mut levels: Vec<i32> = Vec::new();
    let mut j: usize = 0;
    proof {
        assert(texts(tokens@).len() == tokens.len());
    }
    while j < tokens.len()
        invariant
            is_report(line@),
            texts(tokens@) == words(line@),
            j <= tokens.len(),
            levels.len() == j,
            forall|k: int| 0 <= k < j ==> #[trigger] levels[k] == report(line@)[k],
        decreases tokens.len() - j,
    {
        proof {
            assert(texts(tokens@)[j as int] == tokens[j as int]@);
            assert(is_i32(words(line@)[j as int]));
        }
        let level: i32 = read_i32(&tokens[j]).unwrap();
        levels.push(level);
        j += 1;
    }
    proof {
        assert(texts(tokens@).len() == tokens.len());
        assert(levels@ =~= report(line@));
    }
    levels
}

/// The number of reports of `input`, one to a line, that `f` accepts.
pub fn safe_reports_with(input: &str, f: impl Fn(&[i32]) -> bool) -> (count: i32)
    requires
        well_formed(input@),
        lines(input@).len() <= i32::MAX,
        forall|levels: &[i32]| call_requires(f, (levels,)),
    ensures
        forall|judge: spec_fn(Seq<i32>) -> bool|
            (forall|levels: &[i32], b: bool| call_ensures(f, (levels,), b) ==> b == judge(levels@))
                ==> count == #[trigger] tally_reports(lines(input@), judge),
{
    let rows = lines_of(input);
    let ghost ls = lines(input@);
    let mut count: i32 = 0;
    let mut i: usize = 0;
    proof {
        assert(texts(rows@).len() == rows.len());
        assert(ls.take(0) =~= Seq::<Seq<char>>::empty());
    }
    while i < rows.len()
        invariant
            ls == lines(input@),
            texts(rows@) == ls,
            well_formed(input@),
            ls.len() <= i32::MAX,
            forall|levels: &[i32]| call_requires(f, (levels,)),
            i <= rows.len(),
            0 <= count <= i,
            forall|judge: spec_fn(Seq<i32>) -> bool|
                (forall|levels: &[i32], b: bool|
                    call_ensures(f, (levels,), b) ==> b == judge(levels@)) ==> count
                    == #[trigger] tally_reports(ls.take(i as int), judge),
        decreases rows.len() - i,
    {
        proof {
            assert(texts(rows@).len() == rows.len());
            assert(texts(rows@)[i as int] == rows[i as int]@);
            assert(is_report(lines(input@)[i as int]));
        }
        let levels = parse_report(&rows[i]);
        let report_levels = levels.as_slice();
        let verdict = f(report_levels);
        let ghost before = count;
        if verdict {
            count += 1;
        }
        proof {
            let next = ls.take(i + 1);
            assert(next.drop_last() =~= ls.take(i as int));
            assert(next.last() == ls[i as int]);
            assert forall|judge: spec_fn(Seq<i32>) -> bool|
                (forall|levels: &[i32], b: bool|
                    call_ensures(f, (levels,), b) ==> b == judge(levels@)) implies count
                == #[trigger] tally_reports(next, judge) by {
                assert(before == tally_reports(ls.take(i as int), judge));
                assert(verdict == judge(report_levels@));
            }
        }
        i += 1;
    }
    proof {
        assert(texts(rows@).len() == rows.len());
        assert(ls.take(i as int) =~= ls);
    }
    count
}

/// The number of safe reports of `input`, one to a line.
pub fn safe_reports(input: &str) -> (count: i32)
    requires
        well_formed(input@),
        lines(input@).len() <= i32::MAX,
    ensures
        count == tally_reports(lines(input@), judge_safe()),
{
    safe_reports_with(input, is_safe)
}

/// The number of reports of `input`, one to a line, that are safe or would
/// be with one level left out.
pub fn damp_safe_reports(input: &str) -> (count: i32)
    requires
        well_formed(input@),
        lines(input@).len() <= i32::MAX,
    ensures
        count == tally_reports(lines(input@), judge_damp_safe()),
{
    safe_reports_with(input, is_damp_safe)
}

} // verus!
