//! Inputs: one integer literal on each line.
//!
//! An input is read line by line from the top, and the reading stops at the
//! first line that is no literal of the wanted kind.

use crate::literal::{delta_literal, mass_literal, parse_i32, parse_usize, LiteralError};
use crate::text::{chars_of, lines, split_lines, texts};
use vstd::prelude::*;

verus! {

/// Why an input has no result.
#[derive(Clone, Copy, Debug, PartialEq, Eq, Structural)]
pub enum InputError {
    /// A line, counted from zero, is no literal of the wanted kind.
    Parse { line: usize, kind: LiteralError },
    /// A number that the result needs does not fit its machine integer.
    Overflow,
    /// The input has no line, so a search through its lines never ends.
    Endless,
}

/// What each line of `text` is as a frequency change.
pub open spec fn delta_readings(text: Seq<char>) -> Seq<Result<int, LiteralError>> {
    Seq::new(lines(text).len(), |i: int| delta_literal(lines(text)[i]))
}

/// What each line of `text` is as a mass.
pub open spec fn mass_readings(text: Seq<char>) -> Seq<Result<int, LiteralError>> {
    Seq::new(lines(text).len(), |i: int| mass_literal(lines(text)[i]))
}

/// How many readings succeed before the first one that fails: all of them
/// where none fails.
pub open spec fn good_len(readings: Seq<Result<int, LiteralError>>) -> nat
    decreases readings.len(),
{
    if readings.len() == 0 || readings[0] is Err {
        0
    } else {
        1 + good_len(readings.skip(1))
    }
}

/// The error of the first reading that fails, if one does.
pub open spec fn failure_of(readings: Seq<Result<int, LiteralError>>) -> Option<LiteralError> {
    if good_len(readings) < readings.len() {
        Some(readings[good_len(readings) as int]->Err_0)
    } else {
        None
    }
}

/// The frequency changes that `text` gives before its first line that is
/// none.
pub open spec fn deltas_of(text: Seq<char>) -> Seq<i32> {
    Seq::new(good_len(delta_readings(text)), |i: int| delta_readings(text)[i]->Ok_0 as i32)
}

/// The masses that `text` gives before its first line that is none.
pub open spec fn masses_of(text: Seq<char>) -> Seq<usize> {
    Seq::new(good_len(mass_readings(text)), |i: int| mass_readings(text)[i]->Ok_0 as usize)
}

/// `good_len` finds the first failure: every reading before it succeeds, and
/// it stops short of the end only at a failure.
pub proof fn lemma_good_len(readings: Seq<Result<int, LiteralError>>)
    ensures
        good_len(readings) <= readings.len(),
        forall|i: int| 0 <= i < good_len(readings) ==> readings[i] is Ok,
        good_len(readings) < readings.len() ==> readings[good_len(readings) as int] is Err,
    decreases readings.len(),
{
    if !(readings.len() == 0 || readings[0] is Err) {
        let rest = readings.skip(1);
        lemma_good_len(rest);
        assert forall|i: int| 0 <= i < good_len(readings) implies readings[i] is Ok by {
            if i > 0 {
                assert(readings[i] == rest[i - 1]);
            }
        }
    }
}

/// The place of the first failure is `good_len`, and so is the number of
/// readings where none fails.
proof fn lemma_good_len_is(readings: Seq<Result<int, LiteralError>>, n: int)
    requires
        0 <= n <= readings.len(),
        forall|i: int| 0 <= i < n ==> readings[i] is Ok,
        n < readings.len() ==> readings[n] is Err,
    ensures
        good_len(readings) == n,
{
    lemma_good_len(readings);
}

/// Reads the frequency changes of `input` up to its first line that is none,
/// and says what is wrong with that line.
pub fn read_deltas(input: &str) -> (read: (Vec<i32>, Option<LiteralError>))
    ensures
        read.0@ == deltas_of(input@),
        read.1 == failure_of(delta_readings(input@)),
{
    let chars = chars_of(input);
    let rows = split_lines(chars.as_slice());
    let ghost readings = delta_readings(input@);
    let mut deltas: Vec<i32> = Vec::new();
    let mut i: usize = 0;
    while i < rows.len()
        invariant
            i <= rows.len(),
            texts(rows@) == lines(input@),
            readings == delta_readings(input@),
            deltas@.len() == i,
            forall|j: int| 0 <= j < i ==> readings[j] == Ok::<int, LiteralError>(deltas@[j] as int),
        decreases rows.len() - i,
    {
        match parse_i32(rows[i].as_slice()) {
            Ok(delta) => {
                deltas.push(delta);
            },
            Err(kind) => {
                proof {
                    lemma_good_len_is(readings, i as int);
                }
                return (deltas, Some(kind));
            },
        }
        i = i + 1;
    }
    proof {
        lemma_good_len_is(readings, i as int);
    }
    (deltas, None)
}

/// Reads the masses of `input` up to its first line that is none, and says
/// what is wrong with that line.
pub fn read_masses(input: &str) -> (read: (Vec<usize>, Option<LiteralError>))
    ensures
        read.0@ == masses_of(input@),
        read.1 == failure_of(mass_readings(input@)),
{
    let chars = chars_of(input);
    let rows = split_lines(chars.as_slice());
    let ghost readings = mass_readings(input@);
    let mut masses: Vec<usize> = Vec::new();
    let mut i: usize = 0;
    while i < rows.len()
        invariant
            i <= rows.len(),
            texts(rows@) == lines(input@),
            readings == mass_readings(input@),
            masses@.len() == i,
            forall|j: int| 0 <= j < i ==> readings[j] == Ok::<int, LiteralError>(masses@[j] as int),
        decreases rows.len() - i,
    {
        match parse_usize(rows[i].as_slice()) {
            Ok(mass) => {
                masses.push(mass);
            },
            Err(kind) => {
                proof {
                    lemma_good_len_is(readings, i as int);
                }
                return (masses, Some(kind));
            },
        }
        i = i + 1;
    }
    proof {
        lemma_good_len_is(readings, i as int);
    }
    (masses, None)
}

} // verus!
