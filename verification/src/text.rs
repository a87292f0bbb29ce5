//! Reading puzzle text: characters, lines, fields, words and decimal
//! numbers.

use vstd::prelude::*;

verus! {

/// The characters of `s`, in order.
pub fn chars_of(s: &str) -> (v: Vec<char>)
    ensures
        v@ == s@,
{
    let mut v: Vec<char> = Vec::new();
    for c in it: s.chars()
        invariant
            it.seq() == s@,
            v@ == it.seq().take(it.index() as int),
    {
        v.push(c);
    }
    v
}

/// What a vector of character vectors holds, as a sequence of sequences.
pub open spec fn texts(v: Seq<Vec<char>>) -> Seq<Seq<char>> {
    Seq::new(v.len(), |i: int| v[i]@)
}

/// The index of the first line feed of `s`, or the length of `s` if it has
/// none.
pub open spec fn line_end(s: Seq<char>) -> int
    decreases s.len(),
{
    if s.len() == 0 || s[0] == '\n' {
        0
    } else {
        1 + line_end(s.drop_first())
    }
}

/// `l` without the carriage return that ends it, if one does.
pub open spec fn strip_cr(l: Seq<char>) -> Seq<char> {
    if l.len() > 0 && l.last() == '\r' {
        l.drop_last()
    } else {
        l
    }
}

/// The lines of `s`. A line ends at a line feed, or at a carriage return
/// directly followed by one; neither belongs to the line. Text after the last
/// line feed is a line of its own and is kept as it stands; if there is none,
/// no empty line is added.
pub open spec fn lines(s: Seq<char>) -> Seq<Seq<char>>
    decreases s.len(),
{
    if s.len() == 0 {
        Seq::empty()
    } else {
        let e = line_end(s);
        if 0 <= e < s.len() {
            seq![strip_cr(s.take(e))] + lines(s.skip(e + 1))
        } else {
            seq![s]
        }
    }
}

/// The lengths of the sequences of `ls`, added up.
pub open spec fn total_len(ls: Seq<Seq<char>>) -> nat
    decreases ls.len(),
{
    if ls.len() == 0 {
        0
    } else {
        ls[0].len() + total_len(ls.drop_first())
    }
}

/// `line_end` is the place of the first line feed.
pub proof fn lemma_line_end(s: Seq<char>, n: int)
    requires
        0 <= n <= s.len(),
        forall|j: int| 0 <= j < n ==> s[j] != '\n',
        n == s.len() || s[n] == '\n',
    ensures
        line_end(s) == n,
    decreases n,
{
    if n > 0 {
        let t = s.drop_first();
        assert forall|j: int| 0 <= j < n - 1 implies t[j] != '\n' by {
            assert(t[j] == s[j + 1]);
        }
        lemma_line_end(t, n - 1);
    }
}

/// The lines of a text hold no more characters than the text.
pub proof fn lemma_lines_total_len(s: Seq<char>)
    ensures
        total_len(lines(s)) <= s.len(),
    decreases s.len(),
{
    if s.len() > 0 {
        let e = line_end(s);
        if 0 <= e < s.len() {
            let first = strip_cr(s.take(e));
            let rest = lines(s.skip(e + 1));
            lemma_lines_total_len(s.skip(e + 1));
            assert((seq![first] + rest).drop_first() =~= rest);
        } else {
            assert(seq![s].drop_first() =~= Seq::<Seq<char>>::empty());
            assert(total_len(seq![s].drop_first()) == 0);
        }
    }
}

/// The lines of `input`, each as a vector of its characters.
pub fn lines_of(input: &str) -> (rows: Vec<Vec<char>>)
    ensures
        texts(rows@) == lines(input@),
        input@.len() <= usize::MAX,
{
    let chars = chars_of(input);
    let n = chars.len();
    let mut rows: Vec<Vec<char>> = Vec::new();
    let mut pos: usize = 0;
    proof {
        assert(chars@.skip(0) =~= chars@);
        assert(texts(rows@) =~= Seq::<Seq<char>>::empty());
    }
    while pos < n
        invariant
            n == chars.len(),
            pos <= n,
            lines(chars@) == texts(rows@) + lines(chars@.skip(pos as int)),
        decreases n - pos,
    {
        let mut end = pos;
        while end < n && chars[end] != '\n'
            invariant
                n == chars.len(),
                pos <= end <= n,
                forall|j: int| pos <= j < end ==> chars[j] != '\n',
            decreases n - end,
        {
            end += 1;
        }
        let ghost tail = chars@.skip(pos as int);
        proof {
            lemma_line_end(tail, end - pos);
        }
        let stop = if end < n && end > pos && chars[end - 1] == '\r' {
            end - 1
        } else {
            end
        };
        let mut line: Vec<char> = Vec::new();
        let mut i = pos;
        while i < stop
            invariant
                pos <= i <= stop <= n,
                n == chars.len(),
                line@ == chars@.subrange(pos as int, i as int),
            decreases stop - i,
        {
            line.push(chars[i]);
            i += 1;
        }
        let ghost before_rows = texts(rows@);
        rows.push(line);
        proof {
            let e = end - pos;
            if end < n {
                assert(tail.take(e) =~= chars@.subrange(pos as int, end as int));
                assert(strip_cr(tail.take(e)) =~= line@);
                assert(tail.skip(e + 1) =~= chars@.skip(end + 1));
                assert(texts(rows@) =~= before_rows + seq![line@]);
                assert(before_rows + (seq![line@] + lines(chars@.skip(end + 1))) =~= texts(rows@)
                    + lines(chars@.skip(end + 1)));
            } else {
                assert(tail =~= line@);
                assert(texts(rows@) =~= before_rows + seq![line@]);
                assert(chars@.skip(n as int) =~= Seq::<char>::empty());
                assert(lines(chars@.skip(n as int)) =~= Seq::<Seq<char>>::empty());
                assert(before_rows + seq![tail] =~= texts(rows@) + lines(chars@.skip(n as int)));
            }
        }
        pos = if end < n {
            end + 1
        } else {
            end
        };
    }
    proof {
        assert(chars@.skip(n as int) =~= Seq::<char>::empty());
        assert(texts(rows@) + Seq::<Seq<char>>::empty() =~= texts(rows@));
    }
    rows
}

/// What a vector of byte vectors holds, as a sequence of sequences.
pub open spec fn byte_texts(v: Seq<Vec<u8>>) -> Seq<Seq<u8>> {
    Seq::new(v.len(), |i: int| v[i]@)
}

/// The index of the first line feed among the bytes `s`, or the length of
/// `s` if it has none.
pub open spec fn byte_line_end(s: Seq<u8>) -> int
    decreases s.len(),
{
    if s.len() == 0 || s[0] == 10 {
        0
    } else {
        1 + byte_line_end(s.drop_first())
    }
}

/// The bytes `l` without the carriage return that ends them, if one does.
pub open spec fn byte_strip_cr(l: Seq<u8>) -> Seq<u8> {
    if l.len() > 0 && l.last() == 13 {
        l.drop_last()
    } else {
        l
    }
}

/// The lines of a text given as bytes, cut as `lines` cuts characters.
pub open spec fn byte_lines(s: Seq<u8>) -> Seq<Seq<u8>>
    decreases s.len(),
{
    if s.len() == 0 {
        Seq::empty()
    } else {
        let e = byte_line_end(s);
        if 0 <= e < s.len() {
            seq![byte_strip_cr(s.take(e))] + byte_lines(s.skip(e + 1))
        } else {
            seq![s]
        }
    }
}

/// `byte_line_end` is the place of the first line feed.
pub proof fn lemma_byte_line_end(s: Seq<u8>, n: int)
    requires
        0 <= n <= s.len(),
        forall|j: int| 0 <= j < n ==> s[j] != 10,
        n == s.len() || s[n] == 10,
    ensures
        byte_line_end(s) == n,
    decreases n,
{
    if n > 0 {
        let t = s.drop_first();
        assert forall|j: int| 0 <= j < n - 1 implies t[j] != 10 by {
            assert(t[j] == s[j + 1]);
        }
        lemma_byte_line_end(t, n - 1);
    }
}

/// The lines of the text `s`, each as its bytes in UTF-8.
pub open spec fn utf8_lines(s: Seq<char>) -> Seq<Seq<u8>> {
    byte_lines(vstd::utf8::encode_utf8(s))
}

/// The lines of `input`, each as a vector of its bytes.
pub fn byte_lines_of(input: &str) -> (rows: Vec<Vec<u8>>)
    ensures
        byte_texts(rows@) == utf8_lines(input@),
{
    let bytes = input.as_bytes();
    let n = bytes.len();
    let mut rows: Vec<Vec<u8>> = Vec::new();
    let mut pos: usize = 0;
    proof {
        assert(bytes@.skip(0) =~= bytes@);
        assert(byte_texts(rows@) =~= Seq::<Seq<u8>>::empty());
    }
    while pos < n
        invariant
            n == bytes.len(),
            pos <= n,
            byte_lines(bytes@) == byte_texts(rows@) + byte_lines(bytes@.skip(pos as int)),
        decreases n - pos,
    {
        let mut end = pos;
        while end < n && bytes[end] != 10
            invariant
                n == bytes.len(),
                pos <= end <= n,
                forall|j: int| pos <= j < end ==> bytes[j] != 10,
            decreases n - end,
        {
            end += 1;
        }
        let ghost tail = bytes@.skip(pos as int);
        proof {
            lemma_byte_line_end(tail, end - pos);
        }
        let stop = if end < n && end > pos && bytes[end - 1] == 13 {
            end - 1
        } else {
            end
        };
        let mut line: Vec<u8> = Vec::new();
        let mut i = pos;
        while i < stop
            invariant
                pos <= i <= stop <= n,
                n == bytes.len(),
                line@ == bytes@.subrange(pos as int, i as int),
            decreases stop - i,
        {
            line.push(bytes[i]);
            i += 1;
        }
        let ghost before_rows = byte_texts(rows@);
        rows.push(line);
        proof {
            let e = end - pos;
            if end < n {
                assert(tail.take(e) =~= bytes@.subrange(pos as int, end as int));
                assert(byte_strip_cr(tail.take(e)) =~= line@);
                assert(tail.skip(e + 1) =~= bytes@.skip(end + 1));
                assert(byte_texts(rows@) =~= before_rows + seq![line@]);
                assert(before_rows + (seq![line@] + byte_lines(bytes@.skip(end + 1)))
                    =~= byte_texts(rows@) + byte_lines(bytes@.skip(end + 1)));
            } else {
                assert(tail =~= line@);
                assert(byte_texts(rows@) =~= before_rows + seq![line@]);
                assert(bytes@.skip(n as int) =~= Seq::<u8>::empty());
                assert(byte_lines(bytes@.skip(n as int)) =~= Seq::<Seq<u8>>::empty());
                assert(before_rows + seq![tail] =~= byte_texts(rows@) + byte_lines(
                    bytes@.skip(n as int),
                ));
            }
        }
        pos = if end < n {
            end + 1
        } else {
            end
        };
    }
    proof {
        assert(bytes@.skip(n as int) =~= Seq::<u8>::empty());
        assert(byte_texts(rows@) + Seq::<Seq<u8>>::empty() =~= byte_texts(rows@));
    }
    rows
}

/// The index of the first character of `s` that `stop` accepts, or the
/// length of `s` if it accepts none.
pub open spec fn first_where(s: Seq<char>, stop: spec_fn(char) -> bool) -> int
    decreases s.len(),
{
    if s.len() == 0 || stop(s[0]) {
        0
    } else {
        1 + first_where(s.drop_first(), stop)
    }
}

/// `first_where` is the place of the first character that `stop` accepts.
pub proof fn lemma_first_where(s: Seq<char>, stop: spec_fn(char) -> bool, n: int)
    requires
        0 <= n <= s.len(),
        forall|j: int| 0 <= j < n ==> !stop(#[trigger] s[j]),
        n == s.len() || stop(s[n]),
    ensures
        first_where(s, stop) == n,
    decreases n,
{
    if n > 0 {
        let t = s.drop_first();
        assert forall|j: int| 0 <= j < n - 1 implies !stop(#[trigger] t[j]) by {
            assert(t[j] == s[j + 1]);
        }
        assert(!stop(s[0]));
        lemma_first_where(t, stop, n - 1);
    }
}

/// The test for the separator `sep`.
pub open spec fn is_char(sep: char) -> spec_fn(char) -> bool {
    |c: char| c == sep
}

/// The fields of `s` between the separators `sep`: one more than there are
/// separators, so that a text without separator is one field.
pub open spec fn fields(s: Seq<char>, sep: char) -> Seq<Seq<char>>
    decreases s.len(),
{
    let e = first_where(s, is_char(sep));
    if 0 <= e < s.len() {
        seq![s.take(e)] + fields(s.skip(e + 1), sep)
    } else {
        seq![s]
    }
}

/// The characters that separate words: those with the Unicode property
/// White_Space.
pub open spec fn is_space(c: char) -> bool {
    let n = c as u32;
    ||| 0x09 <= n <= 0x0d
    ||| n == 0x20
    ||| n == 0x85
    ||| n == 0xa0
    ||| n == 0x1680
    ||| 0x2000 <= n <= 0x200a
    ||| n == 0x2028
    ||| n == 0x2029
    ||| n == 0x202f
    ||| n == 0x205f
    ||| n == 0x3000
}

/// The test for white space.
pub open spec fn space() -> spec_fn(char) -> bool {
    |c: char| is_space(c)
}

/// The words of `s`: its longest stretches without white space.
pub open spec fn words(s: Seq<char>) -> Seq<Seq<char>>
    decreases s.len(),
{
    if s.len() == 0 {
        Seq::empty()
    } else if is_space(s[0]) {
        words(s.drop_first())
    } else {
        let e = first_where(s, space());
        if 0 < e <= s.len() {
            seq![s.take(e)] + words(s.skip(e))
        } else {
            seq![s]
        }
    }
}

/// Whether `c` separates words.
pub fn is_white(c: char) -> (b: bool)
    ensures
        b == is_space(c),
{
    let n: u32 = c as u32;
    (0x09 <= n && n <= 0x0d) || n == 0x20 || n == 0x85 || n == 0xa0 || n == 0x1680 || (0x2000 <= n
        && n <= 0x200a) || n == 0x2028 || n == 0x2029 || n == 0x202f || n == 0x205f || n == 0x3000
}

/// A copy of `chars[from..to]`.
pub fn slice_of(chars: &Vec<char>, from: usize, to: usize) -> (part: Vec<char>)
    requires
        from <= to <= chars.len(),
    ensures
        part@ == chars@.subrange(from as int, to as int),
{
    let mut part: Vec<char> = Vec::new();
    let mut i: usize = from;
    while i < to
        invariant
            from <= i <= to <= chars.len(),
            part@ == chars@.subrange(from as int, i as int),
        decreases to - i,
    {
        part.push(chars[i]);
        i += 1;
    }
    part
}

/// The fields of `chars` between the separators `sep`.
pub fn split_on(chars: &Vec<char>, sep: char) -> (parts: Vec<Vec<char>>)
    ensures
        texts(parts@) == fields(chars@, sep),
        parts.len() >= 1,
{
    let n = chars.len();
    let mut parts: Vec<Vec<char>> = Vec::new();
    let mut pos: usize = 0;
    let mut done = false;
    proof {
        assert(chars@.skip(0) =~= chars@);
        assert(texts(parts@) =~= Seq::<Seq<char>>::empty());
    }
    while !done
        invariant
            n == chars.len(),
            pos <= n,
            !done ==> fields(chars@, sep) == texts(parts@) + fields(chars@.skip(pos as int), sep),
            done ==> fields(chars@, sep) == texts(parts@) && parts.len() >= 1,
        decreases n - pos + (if done { 0int } else { 1int }),
    {
        let mut end = pos;
        while end < n && chars[end] != sep
            invariant
                n == chars.len(),
                pos <= end <= n,
                forall|j: int| pos <= j < end ==> chars[j] != sep,
            decreases n - end,
        {
            end += 1;
        }
        let ghost tail = chars@.skip(pos as int);
        proof {
            assert forall|j: int| 0 <= j < end - pos implies !is_char(sep)(#[trigger] tail[j]) by {
                assert(tail[j] == chars[pos + j]);
            }
            lemma_first_where(tail, is_char(sep), end - pos);
        }
        let part = slice_of(chars, pos, end);
        let ghost before_parts = texts(parts@);
        parts.push(part);
        proof {
            let e = end - pos;
            assert(texts(parts@) =~= before_parts + seq![part@]);
            if end < n {
                assert(tail.take(e) =~= part@);
                assert(tail.skip(e + 1) =~= chars@.skip(end + 1));
                assert(before_parts + (seq![part@] + fields(chars@.skip(end + 1), sep)) =~= texts(
                    parts@,
                ) + fields(chars@.skip(end + 1), sep));
            } else {
                assert(tail =~= part@);
            }
        }
        if end < n {
            pos = end + 1;
        } else {
            done = true;
        }
    }
    parts
}

/// The words of `chars`.
pub fn split_words(chars: &Vec<char>) -> (parts: Vec<Vec<char>>)
    ensures
        texts(parts@) == words(chars@),
{
    let n = chars.len();
    let mut parts: Vec<Vec<char>> = Vec::new();
    let mut pos: usize = 0;
    proof {
        assert(chars@.skip(0) =~= chars@);
        assert(texts(parts@) =~= Seq::<Seq<char>>::empty());
    }
    while pos < n
        invariant
            n == chars.len(),
            pos <= n,
            words(chars@) == texts(parts@) + words(chars@.skip(pos as int)),
        decreases n - pos,
    {
        let ghost tail = chars@.skip(pos as int);
        if is_white(chars[pos]) {
            proof {
                assert(tail.drop_first() =~= chars@.skip(pos + 1));
            }
            pos += 1;
        } else {
            let mut end = pos + 1;
            while end < n && !is_white(chars[end])
                invariant
                    n == chars.len(),
                    pos < end <= n,
                    forall|j: int| pos <= j < end ==> !is_space(chars[j]),
                decreases n - end,
            {
                end += 1;
            }
            proof {
                assert forall|j: int| 0 <= j < end - pos implies !space()(#[trigger] tail[j]) by {
                    assert(tail[j] == chars[pos + j]);
                }
                lemma_first_where(tail, space(), end - pos);
            }
            let part = slice_of(chars, pos, end);
            let ghost before_parts = texts(parts@);
            parts.push(part);
            proof {
                let e = end - pos;
                assert(texts(parts@) =~= before_parts + seq![part@]);
                assert(tail.take(e) =~= part@);
                assert(tail.skip(e) =~= chars@.skip(end as int));
                assert(before_parts + (seq![part@] + words(chars@.skip(end as int))) =~= texts(
                    parts@,
                ) + words(chars@.skip(end as int)));
            }
            pos = end;
        }
    }
    proof {
        assert(chars@.skip(n as int) =~= Seq::<char>::empty());
        assert(texts(parts@) + Seq::<Seq<char>>::empty() =~= texts(parts@));
    }
    parts
}

/// `c` is one of the digits 0 to 9.
pub open spec fn is_digit(c: char) -> bool {
    '0' <= c <= '9'
}

/// Every character of `s` is a digit.
pub open spec fn all_digits(s: Seq<char>) -> bool {
    forall|i: int| 0 <= i < s.len() ==> is_digit(#[trigger] s[i])
}

/// The number that the digits `s` write in base ten.
pub open spec fn decimal(s: Seq<char>) -> nat
    decreases s.len(),
{
    if s.len() == 0 {
        0
    } else {
        (decimal(s.drop_last()) * 10 + (s.last() as u32 - '0' as u32)) as nat
    }
}

/// `s` writes a whole number: one digit or more, after an optional sign.
pub open spec fn numeral(s: Seq<char>) -> bool {
    if s.len() > 0 && (s[0] == '-' || s[0] == '+') {
        s.len() > 1 && all_digits(s.skip(1))
    } else {
        s.len() > 0 && all_digits(s)
    }
}

/// The whole number that the numeral `s` writes.
pub open spec fn numeral_value(s: Seq<char>) -> int {
    if s.len() > 0 && s[0] == '-' {
        -(decimal(s.skip(1)) as int)
    } else if s.len() > 0 && s[0] == '+' {
        decimal(s.skip(1)) as int
    } else {
        decimal(s) as int
    }
}

/// More digits never write a smaller number.
pub proof fn lemma_decimal_prefix(s: Seq<char>, n: int)
    requires
        0 <= n <= s.len(),
        all_digits(s),
    ensures
        decimal(s.take(n)) <= decimal(s),
    decreases s.len() - n,
{
    if n < s.len() {
        lemma_decimal_prefix(s, n + 1);
        assert(s.take(n + 1).drop_last() =~= s.take(n));
        assert(is_digit(s[n]));
    } else {
        assert(s.take(n) =~= s);
    }
}

/// The number that the numeral `digits` writes, if it lies between `low` and
/// `high`.
pub fn parse_number(digits: &Vec<char>, low: i128, high: i128) -> (value: Option<i128>)
    requires
        -0x1000_0000_0000_0000_0000 <= low <= 0,
        0 <= high <= 0x1000_0000_0000_0000_0000,
    ensures
        value is Some <==> numeral(digits@) && low <= numeral_value(digits@) <= high,
        value is Some ==> value->0 == numeral_value(digits@),
{
    let n = digits.len();
    if n == 0 {
        return None;
    }
    let negative = digits[0] == '-';
    let start: usize = if negative || digits[0] == '+' {
        1
    } else {
        0
    };
    if start == n {
        return None;
    }
    let ghost body = digits@.skip(start as int);
    proof {
        if start == 0 {
            assert(body =~= digits@);
        }
        assert(body.take(0) =~= Seq::<char>::empty());
        assert(numeral(digits@) == all_digits(body));
    }
    let mut acc: i128 = 0;
    let mut i: usize = start;
    while i < n
        invariant
            n == digits.len(),
            start <= i <= n,
            body == digits@.skip(start as int),
            numeral(digits@) == all_digits(body),
            numeral_value(digits@) == (if negative {
                -(decimal(body) as int)
            } else {
                decimal(body) as int
            }),
            all_digits(body.take(i - start)),
            acc == decimal(body.take(i - start)),
            0 <= acc <= 0x1000_0000_0000_0000_0000,
            -0x1000_0000_0000_0000_0000 <= low <= 0,
            0 <= high <= 0x1000_0000_0000_0000_0000,
        decreases n - i,
    {
        let c = digits[i];
        let ghost next = body.take(i + 1 - start);
        proof {
            assert(next.drop_last() =~= body.take(i - start));
            assert(next.last() == c);
        }
        if !('0' <= c && c <= '9') {
            proof {
                assert(body[i - start] == c);
                assert(!all_digits(body));
            }
            return None;
        }
        let d: i128 = (c as u32 - '0' as u32) as i128;
        acc = acc * 10 + d;
        proof {
            assert forall|j: int| 0 <= j < next.len() implies is_digit(#[trigger] next[j]) by {
                if j < i - start {
                    assert(body.take(i - start)[j] == next[j]);
                }
            }
        }
        if acc > 0x1000_0000_0000_0000_0000 {
            proof {
                if all_digits(body) {
                    lemma_decimal_prefix(body, i + 1 - start);
                }
            }
            return None;
        }
        i += 1;
    }
    proof {
        assert(body.take(n - start) =~= body);
    }
    let value = if negative {
        -acc
    } else {
        acc
    };
    if low <= value && value <= high {
        Some(value)
    } else {
        None
    }
}

/// `word` writes a number that fits in 32 bits.
pub open spec fn is_i32(word: Seq<char>) -> bool {
    numeral(word) && i32::MIN <= numeral_value(word) <= i32::MAX
}

/// `word` writes a number that fits in a machine word and bears no minus
/// sign.
pub open spec fn is_usize(word: Seq<char>) -> bool {
    numeral(word) && word[0] != '-' && numeral_value(word) <= usize::MAX
}

/// The number that `word` writes, if it fits in 32 bits.
pub fn read_i32(word: &Vec<char>) -> (value: Option<i32>)
    ensures
        value is Some <==> is_i32(word@),
        value is Some ==> value->0 == numeral_value(word@),
{
    match parse_number(word, -0x8000_0000, 0x7fff_ffff) {
        Some(value) => Some(value as i32),
        None => None,
    }
}

/// The number that `word` writes, if it fits in a machine word and bears no
/// minus sign.
pub fn read_usize(word: &Vec<char>) -> (value: Option<usize>)
    ensures
        value is Some <==> is_usize(word@),
        value is Some ==> value->0 == numeral_value(word@),
{
    if word.len() > 0 && word[0] == '-' {
        return None;
    }
    match parse_number(word, 0, usize::MAX as i128) {
        Some(value) => Some(value as usize),
        None => None,
    }
}

} // verus!
