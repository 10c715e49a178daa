//! Reading machines from text, one record per line.
//!
//! A record is a light pattern and then the groups, in any order and with
//! blanks between them:
//!
//! ```text
//! [.##.] (3) (1,3) (2) (2,3) (0,2) (0,1) {3,5,4,7}
//! ```
//!
//! The pattern has one mark per light, `#` for lit and `.` for dark, and
//! sixteen marks at most. A group in round brackets is a button: the lights
//! that it toggles, by position. The group in curly brackets, of which there
//! is one at most, lists the joltage targets.

use super::bits::{mask_of, set_bit, with_bit};
use super::machine::{Machine, MachineError, MachineView};
use crate::text::{
    number_list, parse_number_list, split_lines, split_tokens, tokens, views,
};
use vstd::prelude::*;
use vstd::slice::slice_subrange;
use vstd::string::StringSliceAdditionalSpecFns;

verus! {

/// `tok` starts with the byte `open` and ends with the byte `close`.
pub open spec fn bracketed(tok: Seq<u8>, open: u8, close: u8) -> bool {
    tok.len() >= 2 && tok[0] == open && tok.last() == close
}

/// What stands between the brackets of `tok`.
pub open spec fn inside(tok: Seq<u8>) -> Seq<u8> {
    tok.subrange(1, tok.len() - 1)
}

/// Every mark is `#` or `.`.
pub open spec fn all_marks(marks: Seq<u8>) -> bool {
    forall|i: int| 0 <= i < marks.len() ==> (#[trigger] marks[i] == 35 || marks[i] == 46)
}

/// The pattern whose light `i` is lit exactly when mark `i` is `#`.
pub open spec fn lights(marks: Seq<u8>) -> u16
    decreases marks.len(),
{
    if marks.len() == 0 {
        0u16
    } else if marks.last() == 35 {
        with_bit(lights(marks.drop_last()), marks.len() - 1)
    } else {
        lights(marks.drop_last())
    }
}

/// The width and the lights of a pattern token, if `tok` is one.
pub open spec fn pattern(tok: Seq<u8>) -> Option<(usize, u16)> {
    if bracketed(tok, 91, 93) && inside(tok).len() <= 16 && all_marks(inside(tok)) {
        Some((inside(tok).len() as usize, lights(inside(tok))))
    } else {
        None
    }
}

/// Every index is below `width`.
pub open spec fn all_below(indices: Seq<usize>, width: usize) -> bool {
    forall|i: int| 0 <= i < indices.len() ==> #[trigger] indices[i] < width
}

/// The groups read so far from a record.
pub struct Groups {
    pub buttons: Seq<u16>,
    pub joltage: Option<Seq<usize>>,
}

/// The groups after the token `tok`, the token number `token` of line `line`, or why `tok`
/// is refused. `width` is that of the record's pattern.
pub open spec fn add_group(
    so_far: Groups,
    tok: Seq<u8>,
    width: usize,
    line: usize,
    token: usize,
) -> Result<Groups, MachineError> {
    if bracketed(tok, 40, 41) {
        match number_list(inside(tok)) {
            None => Err(MachineError::MalformedRecord { line, token }),
            Some(indices) => if all_below(indices, width) {
                Ok(Groups { buttons: so_far.buttons.push(mask_of(indices)), joltage: so_far.joltage })
            } else {
                Err(MachineError::IndexOutOfRange { line, token })
            },
        }
    } else if bracketed(tok, 123, 125) {
        match number_list(inside(tok)) {
            None => Err(MachineError::MalformedRecord { line, token }),
            Some(targets) => if so_far.joltage is Some {
                Err(MachineError::MalformedRecord { line, token })
            } else if targets.len() > width {
                Err(MachineError::IndexOutOfRange { line, token })
            } else {
                Ok(Groups { buttons: so_far.buttons, joltage: Some(targets) })
            },
        }
    } else {
        Err(MachineError::MalformedRecord { line, token })
    }
}

/// The groups of the tokens 1 to `upto - 1` of a record, or the reason for which the first
/// of them that is refused is.
pub open spec fn groups(toks: Seq<Seq<u8>>, upto: int, width: usize, line: usize) -> Result<
    Groups,
    MachineError,
>
    decreases upto,
{
    if upto <= 1 {
        Ok(Groups { buttons: Seq::empty(), joltage: None })
    } else {
        match groups(toks, upto - 1, width, line) {
            Err(e) => Err(e),
            Ok(so_far) => add_group(so_far, toks[upto - 1], width, line, (upto - 1) as usize),
        }
    }
}

/// The machine that the record `line` describes, or why its first refused token is. `line_no`
/// is the number given to the record in errors.
pub open spec fn decode_record(line: Seq<u8>, line_no: usize) -> Result<MachineView, MachineError> {
    let toks = tokens(line);
    if toks.len() == 0 {
        Err(MachineError::MalformedRecord { line: line_no, token: 0 })
    } else {
        match pattern(toks[0]) {
            None => Err(MachineError::MalformedRecord { line: line_no, token: 0 }),
            Some((width, target)) => match groups(toks, toks.len() as int, width, line_no) {
                Err(e) => Err(e),
                Ok(found) => Ok(
                    MachineView {
                        target,
                        buttons: found.buttons,
                        joltage: match found.joltage {
                            Some(targets) => targets,
                            None => Seq::empty(),
                        },
                    },
                ),
            },
        }
    }
}

/// The machines of the first `upto` records, or the error of the first record that has one.
pub open spec fn decode_records(records: Seq<Seq<u8>>, upto: int) -> Result<
    Seq<MachineView>,
    MachineError,
>
    decreases upto,
{
    if upto <= 0 {
        Ok(Seq::empty())
    } else {
        match decode_records(records, upto - 1) {
            Err(e) => Err(e),
            Ok(machines) => match decode_record(records[upto - 1], (upto - 1) as usize) {
                Err(e) => Err(e),
                Ok(m) => Ok(machines.push(m)),
            },
        }
    }
}

/// The machines that a text describes, one per line and in order, or the error of the
/// first line that has one.
pub open spec fn decode_text(text: Seq<u8>) -> Result<Seq<MachineView>, MachineError> {
    decode_records(crate::text::lines(text), crate::text::lines(text).len() as int)
}

/// The views of the machines of `machines`.
pub open spec fn machine_views(machines: Seq<Machine>) -> Seq<MachineView> {
    Seq::new(machines.len(), |i: int| machines[i]@)
}

/// Reads the pattern token of a record: the width and the lights.
pub fn parse_pattern(tok: &[u8]) -> (r: Option<(usize, u16)>)
    ensures
        r == pattern(tok@),
{
    let n = tok.len();
    if n < 2 || tok[0] != 91 || tok[n - 1] != 93 || n - 2 > 16 {
        return None;
    }
    let ghost marks = inside(tok@);
    let mut target: u16 = 0;
    let mut i: usize = 0;
    while i < n - 2
        invariant
            n == tok@.len(),
            2 <= n <= 18,
            i <= n - 2,
            marks == inside(tok@),
            all_marks(marks.take(i as int)),
            target == lights(marks.take(i as int)),
        decreases n - 2 - i,
    {
        let mark = tok[i + 1];
        proof {
            assert(marks[i as int] == mark);
            assert(marks.take(i + 1).drop_last() == marks.take(i as int));
            assert(marks.take(i + 1).last() == mark);
        }
        if mark == 35 {
            target = set_bit(target, i);
        } else if mark != 46 {
            return None;
        }
        proof {
            assert forall|j: int| 0 <= j < i + 1 implies (#[trigger] marks.take(i + 1)[j] == 35
                || marks.take(i + 1)[j] == 46) by {
                if j < i {
                    assert(marks.take(i as int)[j] == marks[j]);
                }
            }
        }
        i += 1;
    }
    proof {
        assert(marks.take(i as int) == marks);
    }
    Some((n - 2, target))
}

/// Builds the pattern that has the lights of `indices` lit, if all are below `width`.
pub fn button_mask(indices: &Vec<usize>, width: usize) -> (r: Option<u16>)
    requires
        width <= 16,
    ensures
        r == if all_below(indices@, width) {
            Some(mask_of(indices@))
        } else {
            None
        },
{
    let mut mask: u16 = 0;
    let mut i: usize = 0;
    while i < indices.len()
        invariant
            i <= indices.len(),
            width <= 16,
            all_below(indices@.take(i as int), width),
            mask == mask_of(indices@.take(i as int)),
        decreases indices.len() - i,
    {
        let idx = indices[i];
        if idx >= width {
            return None;
        }
        proof {
            assert(indices@.take(i + 1).drop_last() == indices@.take(i as int));
            assert forall|j: int| 0 <= j < i + 1 implies #[trigger] indices@.take(i + 1)[j]
                < width by {
                if j < i {
                    assert(indices@.take(i as int)[j] == indices@[j]);
                }
            }
        }
        mask = set_bit(mask, idx);
        i += 1;
    }
    proof {
        assert(indices@.take(i as int) == indices@);
    }
    Some(mask)
}

/// Tells whether `tok` starts with `open` and ends with `close`.
fn is_bracketed(tok: &[u8], open: u8, close: u8) -> (r: bool)
    ensures
        r == bracketed(tok@, open, close),
{
    tok.len() >= 2 && tok[0] == open && tok[tok.len() - 1] == close
}

/// Decodes one record.
///
/// The result is the machine of [`decode_record`], or its error: that of the first token,
/// from the left, that is no pattern where one is due, no group, a list with a field that
/// is no number, a second joltage list, or that names a light or a counter beyond the width.
pub fn parse_machine(line: &[u8], line_no: usize) -> (r: Result<Machine, MachineError>)
    ensures
        match (r, decode_record(line@, line_no)) {
            (Ok(m), Ok(v)) => m@ == v,
            (Err(e), Err(f)) => e == f,
            _ => false,
        },
{
    let toks = split_tokens(line);
    let ghost all = tokens(line@);
    if toks.len() == 0 {
        return Err(MachineError::MalformedRecord { line: line_no, token: 0 });
    }
    assert(all[0] == toks@[0]@);
    let (width, target) = match parse_pattern(toks[0].as_slice()) {
        None => {
            return Err(MachineError::MalformedRecord { line: line_no, token: 0 });
        },
        Some(found) => found,
    };
    let mut buttons: Vec<u16> = Vec::new();
    let mut joltage: Option<Vec<usize>> = None;
    let mut t: usize = 1;
    while t < toks.len()
        invariant
            1 <= t <= toks.len(),
            all == views(toks@),
            all == tokens(line@),
            pattern(all[0]) == Some((width, target)),
            width <= 16,
            groups(all, t as int, width, line_no) == Ok::<Groups, MachineError>(
                Groups {
                    buttons: buttons@,
                    joltage: match joltage {
                        Some(j) => Some(j@),
                        None => None,
                    },
                },
            ),
        decreases toks.len() - t,
    {
        let tok = toks[t].as_slice();
        assert(all[t as int] == tok@);
        let failed = Err(MachineError::MalformedRecord { line: line_no, token: t });
        let beyond = Err(MachineError::IndexOutOfRange { line: line_no, token: t });
        if is_bracketed(tok, 40, 41) {
            match parse_number_list(slice_subrange(tok, 1, tok.len() - 1)) {
                None => {
                    proof {
                        lemma_groups_fail(all, t + 1, width, line_no);
                    }
                    return failed;
                },
                Some(indices) => match button_mask(&indices, width) {
                    None => {
                        proof {
                            lemma_groups_fail(all, t + 1, width, line_no);
                        }
                        return beyond;
                    },
                    Some(mask) => {
                        buttons.push(mask);
                    },
                },
            }
        } else if is_bracketed(tok, 123, 125) {
            match parse_number_list(slice_subrange(tok, 1, tok.len() - 1)) {
                None => {
                    proof {
                        lemma_groups_fail(all, t + 1, width, line_no);
                    }
                    return failed;
                },
                Some(targets) => {
                    if joltage.is_some() {
                        proof {
                            lemma_groups_fail(all, t + 1, width, line_no);
                        }
                        return failed;
                    }
                    if targets.len() > width {
                        proof {
                            lemma_groups_fail(all, t + 1, width, line_no);
                        }
                        return beyond;
                    }
                    joltage = Some(targets);
                },
            }
        } else {
            proof {
                lemma_groups_fail(all, t + 1, width, line_no);
            }
            return failed;
        }
        t += 1;
    }
    let joltage = match joltage {
        Some(targets) => targets,
        None => Vec::new(),
    };
    Ok(Machine::new(target, buttons, joltage))
}

/// Once a token is refused, the record is, with that token's error.
pub proof fn lemma_groups_fail(toks: Seq<Seq<u8>>, upto: int, width: usize, line: usize)
    requires
        1 <= upto <= toks.len(),
        groups(toks, upto, width, line) is Err,
    ensures
        groups(toks, toks.len() as int, width, line) == groups(toks, upto, width, line),
    decreases toks.len() - upto,
{
    if upto < toks.len() {
        lemma_groups_fail(toks, upto + 1, width, line);
    }
}

/// Once a record is refused, the text is, with that record's error.
pub proof fn lemma_records_fail(records: Seq<Seq<u8>>, upto: int)
    requires
        0 <= upto <= records.len(),
        decode_records(records, upto) is Err,
    ensures
        decode_records(records, records.len() as int) == decode_records(records, upto),
    decreases records.len() - upto,
{
    if upto < records.len() {
        lemma_records_fail(records, upto + 1);
    }
}

/// Decodes the machines of a text, one record per line.
///
/// The result holds the machines of the lines in order. Where a line is refused, the
/// result is the error of the first such line, and names that line and the token.
pub fn input_generator(input: &str) -> (r: Result<Vec<Machine>, MachineError>)
    ensures
        match (r, decode_text(input.spec_bytes())) {
            (Ok(machines), Ok(described)) => machine_views(machines@) == described,
            (Err(e), Err(f)) => e == f,
            _ => false,
        },
{
    let records = split_lines(input.as_bytes());
    let ghost all = views(records@);
    let mut machines: Vec<Machine> = Vec::new();
    let mut i: usize = 0;
    assert(machine_views(machines@) == Seq::<MachineView>::empty());
    while i < records.len()
        invariant
            i <= records.len(),
            all == views(records@),
            all == crate::text::lines(input.spec_bytes()),
            decode_records(all, i as int) == Ok::<Seq<MachineView>, MachineError>(
                machine_views(machines@),
            ),
        decreases records.len() - i,
    {
        assert(all[i as int] == records@[i as int]@);
        match parse_machine(records[i].as_slice(), i) {
            Err(e) => {
                proof {
                    lemma_records_fail(all, i + 1);
                }
                return Err(e);
            },
            Ok(m) => {
                let ghost before = machines@;
                machines.push(m);
                assert(machine_views(machines@) == machine_views(before).push(m@));
            },
        }
        i += 1;
    }
    Ok(machines)
}

} // verus!
