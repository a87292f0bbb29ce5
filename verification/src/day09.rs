//! A disk of blocks, each free or part of a numbered file: packing it block
//! by block or file by file, and its checksum.

use crate::text::{all_digits, chars_of, is_digit};
use vstd::prelude::*;

verus! {

/// The blocks that the digit at place `at` of a disk map stands for: as many
/// as the digit says, of file `at / 2` at an even place, free at an odd one.
pub open spec fn blocks_at(at: int, digit: char) -> Seq<Option<usize>> {
    Seq::new(
        (digit as u32 - '0' as u32) as nat,
        |k: int|
            if at % 2 == 0 {
                Some((at / 2) as usize)
            } else {
                None
            },
    )
}

/// The disk that the map `s` describes: the blocks of its digits, one after
/// the other.
pub open spec fn blocks_of(s: Seq<char>) -> Seq<Option<usize>>
    decreases s.len(),
{
    if s.len() == 0 {
        Seq::empty()
    } else {
        blocks_of(s.drop_last()) + blocks_at(s.len() - 1, s.last())
    }
}

/// The disk that the map `input` describes.
pub fn parse_disk(input: &str) -> (disk: Vec<Option<usize>>)
    requires
        all_digits(input@),
    ensures
        disk@ == blocks_of(input@),
{
    let chars = chars_of(input);
    let mut disk: Vec<Option<usize>> = Vec::new();
    let mut i: usize = 0;
    assert(chars@.take(0) =~= Seq::<char>::empty());
    while i < chars.len()
        invariant
            all_digits(chars@),
            i <= chars.len(),
            disk@ == blocks_of(chars@.take(i as int)),
        decreases chars.len() - i,
    {
        let c = chars[i];
        assert(is_digit(chars@[i as int]));
        let blocks: u32 = c as u32 - '0' as u32;
        let val = if i % 2 == 0 {
            let id = i / 2;
            Some(id)
        } else {
            None
        };
        let ghost before = disk@;
        let mut k: u32 = 0;
        while k < blocks
            invariant
                k <= blocks,
                disk@ == before + blocks_at(i as int, c).take(k as int),
                blocks == c as u32 - '0' as u32,
                val == (if i % 2 == 0 {
                    Some(i / 2)
                } else {
                    None
                }),
            decreases blocks - k,
        {
            disk.push(val);
            proof {
                let all = blocks_at(i as int, c);
                assert(all.take(k + 1) =~= all.take(k as int).push(all[k as int]));
                assert(before + all.take(k + 1) =~= (before + all.take(k as int)).push(val));
            }
            k += 1;
        }
        proof {
            let all = blocks_at(i as int, c);
            assert(all.take(blocks as int) =~= all);
            assert(chars@.take(i + 1).drop_last() =~= chars@.take(i as int));
        }
        i += 1;
    }
    assert(chars@.take(i as int) =~= chars@);
    disk
}

/// `s` with the blocks at `a` and `b` exchanged.
pub open spec fn swapped(s: Seq<Option<usize>>, a: int, b: int) -> Seq<Option<usize>> {
    s.update(a, s[b]).update(b, s[a])
}

/// The disk `s` after packing its stretch from `start` to `end`: as long as
/// the stretch has a free block on its left and a file block on its right,
/// the leftmost free block and the rightmost file block change places.
pub open spec fn packed(s: Seq<Option<usize>>, start: int, end: int) -> Seq<Option<usize>>
    decreases end - start, (if 0 <= end < s.len() && s[end] is Some && 0 <= start < s.len()
        && s[start] is None {
        1int
    } else {
        0int
    }),
{
    if !(0 <= start < end < s.len()) {
        s
    } else if s[end] is Some {
        if s[start] is None {
            packed(swapped(s, start, end), start, end - 1)
        } else {
            packed(s, start + 1, end)
        }
    } else {
        packed(s, start, end - 1)
    }
}

/// No free block lies to the left of a file block.
pub open spec fn compact(s: Seq<Option<usize>>) -> bool {
    forall|i: int, j: int|
        0 <= i < j < s.len() && (#[trigger] s[i]) is None ==> (#[trigger] s[j]) is None
}

/// Exchanges the blocks at `a` and `b`.
pub fn swap_blocks(disk: &mut Vec<Option<usize>>, a: usize, b: usize)
    requires
        a < old(disk).len(),
        b < old(disk).len(),
    ensures
        final(disk)@ == swapped(old(disk)@, a as int, b as int),
        final(disk)@.to_multiset() == old(disk)@.to_multiset(),
{
    let first = disk[a];
    let second = disk[b];
    proof {
        lemma_swapped_keeps_blocks(disk@, a as int, b as int);
    }
    disk.set(a, second);
    disk.set(b, first);
}

/// Exchanging two blocks keeps the blocks of the disk.
pub proof fn lemma_swapped_keeps_blocks(s: Seq<Option<usize>>, a: int, b: int)
    requires
        0 <= a < s.len(),
        0 <= b < s.len(),
    ensures
        swapped(s, a, b).to_multiset() == s.to_multiset(),
{
    let first = s.update(a, s[b]);
    vstd::seq_lib::to_multiset_update(s, a, s[b]);
    vstd::seq_lib::to_multiset_update(first, b, s[a]);
    vstd::seq_lib::to_multiset_contains(s, s[a]);
    vstd::seq_lib::to_multiset_contains(s, s[b]);
    assert(s.contains(s[a]));
    assert(s.contains(s[b]));
    if a == b {
        assert(swapped(s, a, b) =~= s);
    } else {
        assert(first[b] == s[b]);
        assert(s.to_multiset().insert(s[b]).remove(s[a]).insert(s[a]).remove(s[b])
            =~= s.to_multiset());
    }
}

/// Packs the disk block by block: the rightmost file block moves into the
/// leftmost free block until no free block lies to the left of a file block.
pub fn defrag(disk: &mut Vec<Option<usize>>)
    requires
        old(disk).len() > 0,
    ensures
        final(disk)@ == packed(old(disk)@, 0, old(disk).len() - 1),
        final(disk).len() == old(disk).len(),
        compact(final(disk)@),
        final(disk)@.to_multiset() == old(disk)@.to_multiset(),
{
    let ghost at_first = disk@;
    let mut start: usize = 0;
    let mut end: usize = disk.len() - 1;
    while start < end
        invariant
            disk.len() == at_first.len(),
            disk@.to_multiset() == at_first.to_multiset(),
            start <= end < disk.len(),
            packed(at_first, 0, at_first.len() - 1) == packed(disk@, start as int, end as int),
            forall|i: int| 0 <= i < start ==> disk[i] is Some,
            forall|i: int| end < i < disk.len() ==> disk[i] is None,
        decreases end - start, (if disk[end as int] is Some && disk[start as int] is None {
            1int
        } else {
            0int
        }),
    {
        if disk[end].is_some() {
            if disk[start].is_none() {
                swap_blocks(disk, start, end);
                end -= 1;
            } else {
                start += 1;
            }
        } else {
            end -= 1;
        }
    }
    proof {
        assert forall|i: int, j: int|
            0 <= i < j < disk.len() && (#[trigger] disk@[i]) is None implies (
        #[trigger] disk@[j]) is None by {
            if j <= end {
                assert(i < start);
            }
        }
    }
}

/// The last block at or before `hint` that belongs to file `id`, or -1.
pub open spec fn file_end(s: Seq<Option<usize>>, id: usize, hint: int) -> int
    decreases hint + 1,
{
    if hint < 0 {
        -1
    } else if s[hint] == Some(id) {
        hint
    } else {
        file_end(s, id, hint - 1)
    }
}

/// The first block of the unbroken stretch of file `id` that ends at `end`.
pub open spec fn run_start(s: Seq<Option<usize>>, id: usize, end: int) -> int
    decreases end,
{
    if end > 0 && s[end - 1] == Some(id) {
        run_start(s, id, end - 1)
    } else {
        end
    }
}

/// The first and the last block of the last unbroken stretch of file `id`
/// at or before `hint`; (0, 0) if the file has no block there.
pub open spec fn file_span(s: Seq<Option<usize>>, id: usize, hint: int) -> (int, int) {
    let end = file_end(s, id, hint);
    if end < 0 {
        (0, 0)
    } else {
        (run_start(s, id, end), end)
    }
}

/// The first and the last block of the last unbroken stretch of file `id`
/// at or before `hint`; (0, 0) if the file has no block there.
pub fn find_file(disk: &[Option<usize>], id: usize, hint: usize) -> (span: (usize, usize))
    requires
        hint < disk.len(),
    ensures
        (span.0 as int, span.1 as int) == file_span(disk@, id, hint as int),
        span.0 <= span.1 <= hint,
{
    let mut start: usize = 0;
    let mut end: usize = 0;
    let mut found = false;
    let mut i: usize = hint;
    let mut more = true;
    while more
        invariant
            i <= hint < disk.len(),
            !found ==> start == 0 && end == 0,
            more && !found ==> file_end(disk@, id, hint as int) == file_end(disk@, id, i as int),
            !more && !found ==> file_end(disk@, id, hint as int) == -1,
            found ==> file_end(disk@, id, hint as int) == end && end <= hint,
            found && more ==> i < end && start == 0 && run_start(disk@, id, end as int) == run_start(
                disk@,
                id,
                i + 1,
            ) && disk[i + 1] == Some(id),
            found && !more ==> start == run_start(disk@, id, end as int) && start <= end,
        decreases i + (if more { 1int } else { 0int }),
    {
        let mut stop = false;
        if let Some(val) = disk[i] {
            if val == id {
                if !found {
                    found = true;
                    end = i;
                }
            } else if found {
                start = i + 1;
                stop = true;
            }
        } else if found {
            start = i + 1;
            stop = true;
        }
        if stop || i == 0 {
            proof {
                if found && !stop {
                    assert(disk[0] == Some(id));
                    lemma_run_start_low(disk@, id, end as int);
                    reveal_with_fuel(run_start, 2);
                }
                if !found {
                    assert(file_end(disk@, id, -1) == -1);
                }
            }
            more = false;
        } else {
            i -= 1;
        }
    }
    (start, end)
}

/// A stretch that reaches the first block of the disk starts there.
proof fn lemma_run_start_low(s: Seq<Option<usize>>, id: usize, end: int)
    requires
        0 <= end,
    ensures
        0 <= run_start(s, id, end) <= end,
    decreases end,
{
    if end > 0 && s[end - 1] == Some(id) {
        lemma_run_start_low(s, id, end - 1);
    }
}

/// The blocks from `at` on, `size` of them or as many as the disk has left,
/// are all free.
pub open spec fn free_at(s: Seq<Option<usize>>, size: int, at: int) -> bool {
    forall|j: int| at <= j < at + size && j < s.len() ==> (#[trigger] s[j]) is None
}

/// The first place from `from` on and before `before_idx` where `size`
/// blocks are free, if there is one.
pub open spec fn first_free(s: Seq<Option<usize>>, size: int, from: int, before_idx: int) -> Option<
    int,
>
    decreases before_idx - from,
{
    if from >= before_idx {
        None
    } else if free_at(s, size, from) {
        Some(from)
    } else {
        first_free(s, size, from + 1, before_idx)
    }
}

/// The first and the last block of the first stretch of `size` free blocks
/// that begins before `before_idx`, if there is one. A stretch that the end
/// of the disk cuts short counts as free.
pub fn find_empty(disk: &[Option<usize>], size: usize, before_idx: usize) -> (span: Option<
    (usize, usize),
>)
    requires
        size >= 1,
        before_idx + size <= usize::MAX,
    ensures
        match span {
            Some((first, last)) => first_free(disk@, size as int, 0, before_idx as int) == Some(
                first as int,
            ) && last == first + size - 1,
            None => first_free(disk@, size as int, 0, before_idx as int) is None,
        },
{
    let mut i: usize = 0;
    while i < before_idx
        invariant
            size >= 1,
            before_idx + size <= usize::MAX,
            i <= before_idx,
            first_free(disk@, size as int, 0, before_idx as int) == first_free(
                disk@,
                size as int,
                i as int,
                before_idx as int,
            ),
        decreases before_idx - i,
    {
        let mut all_free = true;
        let mut j: usize = i;
        while all_free && j < i + size && j < disk.len()
            invariant
                i + size <= usize::MAX,
                i <= j <= i + size,
                all_free ==> forall|k: int| i <= k < j ==> (#[trigger] disk[k]) is None,
                !all_free ==> !free_at(disk@, size as int, i as int),
            decreases i + size - j + (if all_free { 1int } else { 0int }),
        {
            if disk[j].is_some() {
                all_free = false;
            } else {
                j += 1;
            }
        }
        if all_free {
            return Some((i, i + size - 1));
        }
        i += 1;
    }
    None
}

/// `s` with the `size` blocks from `a` on and the `size` blocks from `b` on
/// exchanged.
pub open spec fn stretches_swapped(s: Seq<Option<usize>>, a: int, b: int, size: int) -> Seq<
    Option<usize>,
> {
    Seq::new(
        s.len(),
        |k: int|
            if a <= k < a + size {
                s[k - a + b]
            } else if b <= k < b + size {
                s[k - b + a]
            } else {
                s[k]
            },
    )
}

/// The disk `s` after the files `id`, `id - 1`, down to 1 have each been
/// offered a move, in this order: the file's last stretch at or before
/// `hint` moves to the first stretch of free blocks to its left that can
/// hold it, if there is one; the next file is then sought from where this one
/// ended.
pub open spec fn files_moved(s: Seq<Option<usize>>, id: int, hint: int) -> Seq<Option<usize>>
    decreases id,
{
    if id <= 0 {
        s
    } else {
        let (first, last) = file_span(s, id as usize, hint);
        let size = last - first + 1;
        let after = match first_free(s, size, 0, first) {
            Some(free) => stretches_swapped(s, first, free, size),
            None => s,
        };
        files_moved(after, id - 1, last)
    }
}

/// The last block of `s` at or before `from` that is not free.
pub open spec fn last_data(s: Seq<Option<usize>>, from: int) -> int
    decreases from,
{
    if from <= 0 || s[from] is Some {
        from
    } else {
        last_data(s, from - 1)
    }
}

/// A stretch of free blocks found before a file's first block ends before
/// it.
proof fn lemma_free_stretch_ends_before(
    s: Seq<Option<usize>>,
    size: int,
    from: int,
    file: int,
    free: int,
)
    requires
        0 <= from,
        0 <= file < s.len(),
        s[file] is Some,
        first_free(s, size, from, file) == Some(free),
    ensures
        from <= free,
        free + size <= file,
        free_at(s, size, free),
    decreases file - from,
{
    if from < file {
        if free_at(s, size, from) {
            if from + size > file {
                assert(s[file] is None);
            }
        } else {
            lemma_free_stretch_ends_before(s, size, from + 1, file, free);
        }
    }
}

/// Every block of the stretch that `file_span` gives belongs to the file.
proof fn lemma_file_span(s: Seq<Option<usize>>, id: usize, hint: int)
    requires
        0 <= hint < s.len(),
        file_end(s, id, hint) >= 0,
    ensures
        0 <= file_span(s, id, hint).0 <= file_span(s, id, hint).1 <= hint,
        s[file_span(s, id, hint).0] == Some(id),
{
    lemma_file_end(s, id, hint);
    lemma_run_start(s, id, file_end(s, id, hint));
}

/// `file_end` names a block of the file.
proof fn lemma_file_end(s: Seq<Option<usize>>, id: usize, hint: int)
    requires
        file_end(s, id, hint) >= 0,
    ensures
        file_end(s, id, hint) <= hint,
        s[file_end(s, id, hint)] == Some(id),
    decreases hint + 1,
{
    if hint >= 0 && s[hint] != Some(id) {
        lemma_file_end(s, id, hint - 1);
    }
}

/// `run_start` names a block of the file.
proof fn lemma_run_start(s: Seq<Option<usize>>, id: usize, end: int)
    requires
        0 <= end,
        s[end] == Some(id),
    ensures
        0 <= run_start(s, id, end) <= end,
        s[run_start(s, id, end)] == Some(id),
    decreases end,
{
    if end > 0 && s[end - 1] == Some(id) {
        lemma_run_start(s, id, end - 1);
    }
}

/// Packs the disk file by file: each file, from the one in the last used
/// block down to file 1, moves once to the first stretch of free blocks on
/// its left that can hold it whole, if there is one.
pub fn whole_file_defrag(disk: &mut Vec<Option<usize>>)
    requires
        old(disk).len() > 0,
        exists|i: int| 0 <= i < old(disk).len() && (#[trigger] old(disk)[i]) is Some,
    ensures
        final(disk)@ == files_moved(
            old(disk)@,
            old(disk)[last_data(old(disk)@, old(disk).len() - 1)]->0 as int,
            last_data(old(disk)@, old(disk).len() - 1),
        ),
        final(disk)@.to_multiset() == old(disk)@.to_multiset(),
{
    let ghost at_first = disk@;
    let mut last_data_idx: usize = disk.len() - 1;
    while disk[last_data_idx].is_none()
        invariant
            disk@ == at_first,
            last_data_idx < disk.len(),
            last_data(at_first, at_first.len() - 1) == last_data(at_first, last_data_idx as int),
            exists|i: int| 0 <= i <= last_data_idx && (#[trigger] at_first[i]) is Some,
        decreases last_data_idx,
    {
        last_data_idx -= 1;
    }
    let mut id = disk[last_data_idx].unwrap();
    let ghost goal = files_moved(at_first, id as int, last_data_idx as int);
    while id > 0
        invariant
            disk.len() == at_first.len(),
            disk@.to_multiset() == at_first.to_multiset(),
            last_data_idx < disk.len(),
            goal == files_moved(disk@, id as int, last_data_idx as int),
        decreases id,
    {
        let ghost s = disk@;
        let ghost hint = last_data_idx as int;
        let (fstart, fend) = find_file(disk.as_slice(), id, last_data_idx);
        last_data_idx = fend;
        let size = fend - fstart + 1;
        if let Some((estart, eend)) = find_empty(disk.as_slice(), size, fstart) {
            proof {
                if file_end(s, id, hint) >= 0 {
                    lemma_file_span(s, id, hint);
                    lemma_free_stretch_ends_before(s, size as int, 0, fstart as int, estart as int);
                }
            }
            let mut k: usize = 0;
            while k < size
                invariant
                    disk.len() == s.len(),
                    disk@.to_multiset() == s.to_multiset(),
                    estart + size <= fstart,
                    fstart + size <= disk.len(),
                    k <= size,
                    forall|j: int|
                        0 <= j < disk.len() ==> #[trigger] disk[j] == (if fstart <= j < fstart + k {
                            s[j - fstart + estart]
                        } else if estart <= j < estart + k {
                            s[j - estart + fstart]
                        } else {
                            s[j]
                        }),
                decreases size - k,
            {
                swap_blocks(disk, fstart + k, estart + k);
                k += 1;
            }
            proof {
                assert(disk@ =~= stretches_swapped(s, fstart as int, estart as int, size as int));
            }
        }
        id -= 1;
    }
}

/// The checksum of a disk: the sum, over its file blocks, of the block's
/// place times the number of its file.
pub open spec fn checksum_of(s: Seq<Option<usize>>) -> nat
    decreases s.len(),
{
    if s.len() == 0 {
        0
    } else {
        checksum_of(s.drop_last()) + (match s.last() {
            Some(id) => (id * (s.len() - 1)) as nat,
            None => 0,
        })
    }
}

/// The checksum of a part of the disk is no more than that of the whole.
proof fn lemma_checksum_prefix(s: Seq<Option<usize>>, n: int)
    requires
        0 <= n <= s.len(),
    ensures
        checksum_of(s.take(n)) <= checksum_of(s),
    decreases s.len() - n,
{
    if n < s.len() {
        lemma_checksum_prefix(s, n + 1);
        assert(s.take(n + 1).drop_last() =~= s.take(n));
    } else {
        assert(s.take(n) =~= s);
    }
}

/// The checksum of the disk.
pub fn checksum(disk: &[Option<usize>]) -> (sum: usize)
    requires
        checksum_of(disk@) <= usize::MAX,
    ensures
        sum == checksum_of(disk@),
{
    let mut sum: usize = 0;
    let mut i: usize = 0;
    assert(disk@.take(0) =~= Seq::<Option<usize>>::empty());
    while i < disk.len()
        invariant
            checksum_of(disk@) <= usize::MAX,
            i <= disk.len(),
            sum == checksum_of(disk@.take(i as int)),
        decreases disk.len() - i,
    {
        proof {
            lemma_checksum_prefix(disk@, i + 1);
            assert(disk@.take(i + 1).drop_last() =~= disk@.take(i as int));
            assert(disk@.take(i + 1).last() == disk[i as int]);
            if let Some(num) = disk[i as int] {
                assert(num * i >= 0) by (nonlinear_arith)
                    requires
                        num >= 0,
                        i >= 0,
                ;
            }
        }
        if let Some(num) = disk[i] {
            sum += num * i;
        }
        i += 1;
    }
    assert(disk@.take(i as int) =~= disk@);
    sum
}

/// The checksum of the disk that the map `input` describes, after packing
/// it block by block.
pub fn part1(input: &str) -> (sum: usize)
    requires
        all_digits(input@),
        blocks_of(input@).len() > 0,
        checksum_of(packed(blocks_of(input@), 0, blocks_of(input@).len() - 1)) <= usize::MAX,
    ensures
        sum == checksum_of(packed(blocks_of(input@), 0, blocks_of(input@).len() - 1)),
{
    let mut disk = parse_disk(input);
    defrag(&mut disk);
    checksum(disk.as_slice())
}

/// The disk that the map `s` describes, packed file by file.
pub open spec fn moved_whole(s: Seq<char>) -> Seq<Option<usize>> {
    let disk = blocks_of(s);
    let last = last_data(disk, disk.len() - 1);
    files_moved(disk, disk[last]->0 as int, last)
}

/// The checksum of the disk that the map `input` describes, after packing
/// it file by file.
pub fn part2(input: &str) -> (sum: usize)
    requires
        all_digits(input@),
        exists|i: int| 0 <= i < blocks_of(input@).len() && (#[trigger] blocks_of(input@)[i]) is Some,
        checksum_of(moved_whole(input@)) <= usize::MAX,
    ensures
        sum == checksum_of(moved_whole(input@)),
{
    let mut disk = parse_disk(input);
    whole_file_defrag(&mut disk);
    checksum(disk.as_slice())
}

} // verus!
