//! Cutting text into lines, tokens and numbers.
//!
//! Text is taken as bytes. What a function returns is stated over the
//! sequence of bytes, by spec functions that read the text from the left.

use vstd::prelude::*;

verus! {

/// What separates the fields of a text.
#[derive(Debug, Clone, Copy, PartialEq, Eq, Structural)]
pub enum Separator {
    /// The line feed.
    Newline,
    /// A space, a tab, a line feed, a vertical tab, a form feed or a carriage return.
    Blank,
    /// The comma.
    Comma,
    /// The hyphen.
    Dash,
    /// The space.
    Space,
}

/// Whether `b` separates fields under `sep`.
pub open spec fn is_separator(sep: Separator, b: u8) -> bool {
    match sep {
        Separator::Newline => b == 10,
        Separator::Blank => b == 32 || 9 <= b <= 13,
        Separator::Comma => b == 44,
        Separator::Dash => b == 45,
        Separator::Space => b == 32,
    }
}

/// The fields of `s`: the runs of bytes between separators, empty runs included. A text
/// with `n` separators has `n + 1` fields.
pub open spec fn fields(s: Seq<u8>, sep: Separator) -> Seq<Seq<u8>>
    decreases s.len(),
{
    if s.len() == 0 {
        seq![Seq::<u8>::empty()]
    } else {
        let before = fields(s.drop_last(), sep);
        if is_separator(sep, s.last()) {
            before.push(Seq::<u8>::empty())
        } else {
            before.update(before.len() - 1, before.last().push(s.last()))
        }
    }
}

/// The parts that are not empty, in order.
pub open spec fn nonempty(parts: Seq<Seq<u8>>) -> Seq<Seq<u8>>
    decreases parts.len(),
{
    if parts.len() == 0 {
        Seq::empty()
    } else if parts.last().len() == 0 {
        nonempty(parts.drop_last())
    } else {
        nonempty(parts.drop_last()).push(parts.last())
    }
}

/// The tokens of a line: its runs of bytes that are not blank.
pub open spec fn tokens(line: Seq<u8>) -> Seq<Seq<u8>> {
    nonempty(fields(line, Separator::Blank))
}

/// The line without the carriage return at its end, if it has one.
pub open spec fn without_cr(line: Seq<u8>) -> Seq<u8> {
    if line.len() > 0 && line.last() == 13 {
        line.drop_last()
    } else {
        line
    }
}

/// The lines of a text. A line feed ends a line, so a text that ends in one has no
/// further, empty line. A carriage return before the line feed is no part of the line.
pub open spec fn lines(text: Seq<u8>) -> Seq<Seq<u8>> {
    let parts = fields(text, Separator::Newline);
    let kept = if parts.last().len() == 0 {
        parts.drop_last()
    } else {
        parts
    };
    Seq::new(kept.len(), |i: int| without_cr(kept[i]))
}

/// The views of the vectors of `parts`.
pub open spec fn views(parts: Seq<Vec<u8>>) -> Seq<Seq<u8>> {
    Seq::new(parts.len(), |i: int| parts[i]@)
}

/// The first place of the byte `mark` in `line` at or after `from`, or the length of the
/// line where there is none.
pub open spec fn first_mark(line: Seq<u8>, mark: u8, from: int) -> int
    decreases line.len() - from,
{
    if from >= line.len() {
        line.len() as int
    } else if from >= 0 && line[from] == mark {
        from
    } else {
        first_mark(line, mark, from + 1)
    }
}

/// The number of blank bytes at the start of `s`.
pub open spec fn leading_blanks(s: Seq<u8>) -> nat
    decreases s.len(),
{
    if s.len() > 0 && is_separator(Separator::Blank, s[0]) {
        1 + leading_blanks(s.skip(1))
    } else {
        0
    }
}

/// The number of blank bytes at the end of `s`.
pub open spec fn trailing_blanks(s: Seq<u8>) -> nat
    decreases s.len(),
{
    if s.len() > 0 && is_separator(Separator::Blank, s.last()) {
        1 + trailing_blanks(s.drop_last())
    } else {
        0
    }
}

/// `s` without the blank bytes at its start and at its end.
pub open spec fn trimmed(s: Seq<u8>) -> Seq<u8> {
    if leading_blanks(s) >= s.len() {
        Seq::empty()
    } else {
        s.subrange(leading_blanks(s) as int, s.len() - trailing_blanks(s))
    }
}

/// Whether `b` is a decimal digit.
pub open spec fn is_digit(b: u8) -> bool {
    48 <= b <= 57
}

/// Whether every byte of `s` is a decimal digit.
pub open spec fn all_digits(s: Seq<u8>) -> bool {
    forall|i: int| 0 <= i < s.len() ==> is_digit(#[trigger] s[i])
}

/// The number that the digits of `s` write in base ten.
pub open spec fn digits_value(s: Seq<u8>) -> nat
    decreases s.len(),
{
    if s.len() == 0 {
        0
    } else {
        digits_value(s.drop_last()) * 10 + (s.last() - 48) as nat
    }
}

/// The number that `s` writes, if `s` is one digit or more and the number fits a `u64`.
pub open spec fn number_u64(s: Seq<u8>) -> Option<u64> {
    if s.len() > 0 && all_digits(s) && digits_value(s) <= u64::MAX {
        Some(digits_value(s) as u64)
    } else {
        None
    }
}

/// The number that `s` writes, if `s` is one digit or more and the number fits a `usize`.
pub open spec fn number(s: Seq<u8>) -> Option<usize> {
    if s.len() > 0 && all_digits(s) && digits_value(s) <= usize::MAX {
        Some(digits_value(s) as usize)
    } else {
        None
    }
}

/// The numbers that the fields of `parts` write, if each writes one.
pub open spec fn numbers(parts: Seq<Seq<u8>>) -> Option<Seq<usize>>
    decreases parts.len(),
{
    if parts.len() == 0 {
        Some(Seq::empty())
    } else {
        match (numbers(parts.drop_last()), number(parts.last())) {
            (Some(front), Some(last)) => Some(front.push(last)),
            _ => None,
        }
    }
}

/// The numbers that the fields of `parts` write, if each writes one that fits a `u64`.
pub open spec fn numbers_u64(parts: Seq<Seq<u8>>) -> Option<Seq<u64>>
    decreases parts.len(),
{
    if parts.len() == 0 {
        Some(Seq::empty())
    } else {
        match (numbers_u64(parts.drop_last()), number_u64(parts.last())) {
            (Some(front), Some(last)) => Some(front.push(last)),
            _ => None,
        }
    }
}

/// The numbers of a list that commas separate, if each of its fields writes one.
pub open spec fn number_list(s: Seq<u8>) -> Option<Seq<usize>> {
    numbers(fields(s, Separator::Comma))
}

/// There is always at least one field.
pub proof fn lemma_fields_nonempty(s: Seq<u8>, sep: Separator)
    ensures
        fields(s, sep).len() >= 1,
    decreases s.len(),
{
    if s.len() > 0 {
        lemma_fields_nonempty(s.drop_last(), sep);
    }
}

/// A longer run of digits writes no smaller a number.
pub proof fn lemma_digits_value_grows(s: Seq<u8>, upto: int)
    requires
        0 <= upto <= s.len(),
        all_digits(s),
    ensures
        digits_value(s.take(upto)) <= digits_value(s),
    decreases s.len() - upto,
{
    if upto < s.len() {
        lemma_digits_value_grows(s, upto + 1);
        assert(s.take(upto + 1).drop_last() == s.take(upto));
        assert(is_digit(s[upto]));
    } else {
        assert(s.take(upto) == s);
    }
}

/// Tells whether `b` separates fields under `sep`.
pub fn separates(sep: Separator, b: u8) -> (r: bool)
    ensures
        r == is_separator(sep, b),
{
    match sep {
        Separator::Newline => b == 10,
        Separator::Blank => b == 32 || (9 <= b && b <= 13),
        Separator::Comma => b == 44,
        Separator::Dash => b == 45,
        Separator::Space => b == 32,
    }
}

/// Cuts `s` at each separator into its fields.
pub fn split_fields(s: &[u8], sep: Separator) -> (r: Vec<Vec<u8>>)
    ensures
        views(r@) == fields(s@, sep),
{
    let mut done: Vec<Vec<u8>> = Vec::new();
    let mut current: Vec<u8> = Vec::new();
    let mut i: usize = 0;
    while i < s.len()
        invariant
            i <= s.len(),
            fields(s@.take(i as int), sep) == views(done@).push(current@),
        decreases s.len() - i,
    {
        let b = s[i];
        proof {
            assert(s@.take(i + 1).drop_last() == s@.take(i as int));
            assert(s@.take(i + 1).last() == b);
        }
        if separates(sep, b) {
            let ghost before = done@;
            done.push(current);
            current = Vec::new();
            assert(views(done@) == views(before).push(done@.last()@));
        } else {
            let ghost before = current@;
            current.push(b);
            assert(views(done@).push(before).update(done@.len() as int, before.push(b)) == views(
                done@,
            ).push(current@));
        }
        i += 1;
    }
    let ghost before = done@;
    done.push(current);
    proof {
        assert(s@.take(i as int) == s@);
        assert(views(done@) == views(before).push(done@.last()@));
    }
    done
}

/// Keeps the parts that are not empty.
pub fn keep_nonempty(parts: Vec<Vec<u8>>) -> (r: Vec<Vec<u8>>)
    ensures
        views(r@) == nonempty(views(parts@)),
{
    let mut out: Vec<Vec<u8>> = Vec::new();
    let mut parts = parts;
    let ghost all = views(parts@);
    let mut i: usize = 0;
    let n = parts.len();
    while i < n
        invariant
            i <= n,
            n == parts.len(),
            n == all.len(),
            forall|j: int| i <= j < n ==> (#[trigger] parts@[j])@ == all[j],
            views(out@) == nonempty(all.take(i as int)),
        decreases n - i,
    {
        let mut part: Vec<u8> = Vec::new();
        std::mem::swap(&mut part, &mut parts[i]);
        proof {
            assert(all.take(i + 1).drop_last() == all.take(i as int));
            assert(all.take(i + 1).last() == part@);
        }
        if part.len() > 0 {
            let ghost before = out@;
            out.push(part);
            assert(views(out@) == views(before).push(out@.last()@));
        }
        i += 1;
    }
    proof {
        assert(all.take(i as int) == all);
    }
    out
}

/// Cuts a line into its tokens.
pub fn split_tokens(line: &[u8]) -> (r: Vec<Vec<u8>>)
    ensures
        views(r@) == tokens(line@),
{
    keep_nonempty(split_fields(line, Separator::Blank))
}

/// Cuts a text into its lines.
pub fn split_lines(text: &[u8]) -> (r: Vec<Vec<u8>>)
    ensures
        views(r@) == lines(text@),
{
    let mut parts = split_fields(text, Separator::Newline);
    proof {
        lemma_fields_nonempty(text@, Separator::Newline);
    }
    let ghost all = views(parts@);
    if parts[parts.len() - 1].len() == 0 {
        parts.pop();
    }
    let ghost kept = views(parts@);
    assert(kept == if all.last().len() == 0 {
        all.drop_last()
    } else {
        all
    });
    let mut out: Vec<Vec<u8>> = Vec::new();
    let n = parts.len();
    let mut i: usize = 0;
    while i < n
        invariant
            i <= n,
            n == parts.len(),
            n == kept.len(),
            out@.len() == i,
            forall|j: int| i <= j < n ==> (#[trigger] parts@[j])@ == kept[j],
            forall|j: int| 0 <= j < i ==> (#[trigger] out@[j])@ == without_cr(kept[j]),
        decreases n - i,
    {
        let mut line: Vec<u8> = Vec::new();
        std::mem::swap(&mut line, &mut parts[i]);
        if line.len() > 0 && line[line.len() - 1] == 13 {
            line.pop();
        }
        out.push(line);
        i += 1;
    }
    assert(views(out@) =~= lines(text@));
    out
}

/// Reads a decimal number that fits a `u64`.
pub fn parse_u64(s: &[u8]) -> (r: Option<u64>)
    ensures
        r == number_u64(s@),
{
    if s.len() == 0 {
        return None;
    }
    let mut value: u64 = 0;
    let mut i: usize = 0;
    while i < s.len()
        invariant
            i <= s.len(),
            all_digits(s@.take(i as int)),
            value == digits_value(s@.take(i as int)),
        decreases s.len() - i,
    {
        let b = s[i];
        if b < 48 || b > 57 {
            assert(!is_digit(s@[i as int]));
            return None;
        }
        proof {
            assert(s@.take(i + 1).drop_last() == s@.take(i as int));
            assert(s@.take(i + 1).last() == b);
            assert forall|j: int| 0 <= j < i + 1 implies is_digit(#[trigger] s@.take(i + 1)[j]) by {
                if j < i {
                    assert(s@.take(i as int)[j] == s@[j]);
                }
            }
        }
        let digit: u64 = (b - 48) as u64;
        let next = match value.checked_mul(10) {
            Some(tens) => tens.checked_add(digit),
            None => None,
        };
        match next {
            Some(v) => {
                value = v;
            },
            None => {
                proof {
                    if all_digits(s@) {
                        lemma_digits_value_grows(s@, i + 1);
                    }
                }
                return None;
            },
        }
        i += 1;
    }
    proof {
        assert(s@.take(i as int) == s@);
    }
    Some(value)
}

/// Reads a decimal number that fits a `usize`.
pub fn parse_number(s: &[u8]) -> (r: Option<usize>)
    ensures
        r == number(s@),
{
    match parse_u64(s) {
        Some(v) => if v <= usize::MAX as u64 {
            Some(v as usize)
        } else {
            None
        },
        None => None,
    }
}

/// Reads the numbers that each of `parts` writes.
pub fn parse_numbers(parts: &Vec<Vec<u8>>) -> (r: Option<Vec<usize>>)
    ensures
        match r {
            Some(v) => numbers(views(parts@)) == Some(v@),
            None => numbers(views(parts@)) is None,
        },
{
    let ghost all = views(parts@);
    let mut out: Vec<usize> = Vec::new();
    let mut i: usize = 0;
    while i < parts.len()
        invariant
            i <= parts.len(),
            all == views(parts@),
            numbers(all.take(i as int)) == Some(out@),
        decreases parts.len() - i,
    {
        proof {
            assert(all.take(i + 1).drop_last() == all.take(i as int));
            assert(all.take(i + 1).last() == parts@[i as int]@);
        }
        match parse_number(parts[i].as_slice()) {
            Some(v) => {
                out.push(v);
            },
            None => {
                proof {
                    lemma_numbers_fail(all, i + 1);
                }
                return None;
            },
        }
        i += 1;
    }
    proof {
        assert(all.take(i as int) == all);
    }
    Some(out)
}

/// Reads the numbers that each of `parts` writes, each fitting a `u64`.
pub fn parse_numbers_u64(parts: &Vec<Vec<u8>>) -> (r: Option<Vec<u64>>)
    ensures
        match r {
            Some(v) => numbers_u64(views(parts@)) == Some(v@),
            None => numbers_u64(views(parts@)) is None,
        },
{
    let ghost all = views(parts@);
    let mut out: Vec<u64> = Vec::new();
    let mut i: usize = 0;
    while i < parts.len()
        invariant
            i <= parts.len(),
            all == views(parts@),
            numbers_u64(all.take(i as int)) == Some(out@),
        decreases parts.len() - i,
    {
        proof {
            assert(all.take(i + 1).drop_last() == all.take(i as int));
            assert(all.take(i + 1).last() == parts@[i as int]@);
        }
        match parse_u64(parts[i].as_slice()) {
            Some(v) => {
                out.push(v);
            },
            None => {
                proof {
                    lemma_numbers_u64_fail(all, i + 1);
                }
                return None;
            },
        }
        i += 1;
    }
    proof {
        assert(all.take(i as int) == all);
    }
    Some(out)
}

/// Once a field writes no number, no longer list of fields does.
pub proof fn lemma_numbers_u64_fail(parts: Seq<Seq<u8>>, upto: int)
    requires
        0 <= upto <= parts.len(),
        numbers_u64(parts.take(upto)) is None,
    ensures
        numbers_u64(parts) is None,
    decreases parts.len() - upto,
{
    if upto < parts.len() {
        assert(parts.take(upto + 1).drop_last() == parts.take(upto));
        lemma_numbers_u64_fail(parts, upto + 1);
    } else {
        assert(parts.take(upto) == parts);
    }
}

/// Once a field writes no number, no longer list of fields does.
pub proof fn lemma_numbers_fail(parts: Seq<Seq<u8>>, upto: int)
    requires
        0 <= upto <= parts.len(),
        numbers(parts.take(upto)) is None,
    ensures
        numbers(parts) is None,
    decreases parts.len() - upto,
{
    if upto < parts.len() {
        assert(parts.take(upto + 1).drop_last() == parts.take(upto));
        lemma_numbers_fail(parts, upto + 1);
    } else {
        assert(parts.take(upto) == parts);
    }
}

/// Reads a list of decimal numbers that commas separate.
pub fn parse_number_list(s: &[u8]) -> (r: Option<Vec<usize>>)
    ensures
        match r {
            Some(v) => number_list(s@) == Some(v@),
            None => number_list(s@) is None,
        },
{
    let parts = split_fields(s, Separator::Comma);
    parse_numbers(&parts)
}

/// Finds the first place of `mark` in `line`.
pub fn find_mark(line: &[u8], mark: u8) -> (r: usize)
    ensures
        r == first_mark(line@, mark, 0),
        r <= line@.len(),
{
    let mut i: usize = 0;
    while i < line.len()
        invariant
            i <= line.len(),
            first_mark(line@, mark, 0) == first_mark(line@, mark, i as int),
        decreases line.len() - i,
    {
        if line[i] == mark {
            return i;
        }
        i += 1;
    }
    line.len()
}

/// Copies `s` without the blank bytes at its start and at its end.
pub fn trim(s: &[u8]) -> (r: Vec<u8>)
    ensures
        r@ == trimmed(s@),
{
    let n = s.len();
    let mut from: usize = 0;
    assert(s@.skip(0) == s@);
    while from < n && separates(Separator::Blank, s[from])
        invariant
            from <= n,
            n == s@.len(),
            leading_blanks(s@) == from + leading_blanks(s@.skip(from as int)),
        decreases n - from,
    {
        proof {
            assert(s@.skip(from as int)[0] == s@[from as int]);
            assert(s@.skip(from as int).skip(1) == s@.skip(from + 1));
        }
        from += 1;
    }
    proof {
        if from < n {
            assert(s@.skip(from as int)[0] == s@[from as int]);
        }
    }
    if from == n {
        return Vec::new();
    }
    let mut to: usize = n;
    assert(s@.take(n as int) == s@);
    while to > from && separates(Separator::Blank, s[to - 1])
        invariant
            from < to <= n,
            n == s@.len(),
            !is_separator(Separator::Blank, s@[from as int]),
            trailing_blanks(s@) == (n - to) + trailing_blanks(s@.take(to as int)),
        decreases to,
    {
        proof {
            assert(s@.take(to as int).last() == s@[to - 1]);
            assert(s@.take(to as int).drop_last() == s@.take(to - 1));
        }
        to -= 1;
    }
    proof {
        assert(s@.take(to as int).last() == s@[to - 1]);
    }
    let mut out: Vec<u8> = Vec::new();
    let mut i: usize = from;
    while i < to
        invariant
            from <= i <= to <= n,
            n == s@.len(),
            out@ == s@.subrange(from as int, i as int),
        decreases to - i,
    {
        out.push(s[i]);
        assert(out@ =~= s@.subrange(from as int, i + 1));
        i += 1;
    }
    out
}

} // verus!
