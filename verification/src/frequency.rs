//! Drift of a frequency under a list of signed changes.
//!
//! The frequency starts at zero. The calibration is the frequency after all
//! changes were applied once. The search applies the changes over and over,
//! in order, until the frequency takes a value that it had before.

use crate::input::{delta_readings, deltas_of, failure_of, read_deltas, InputError};
use std::collections::HashSet;
use vstd::arithmetic::div_mod::{lemma_fundamental_div_mod_converse, lemma_small_mod};
use vstd::prelude::*;
use vstd::set_lib::{lemma_int_range, lemma_len_subset, lemma_map_size, set_int_range};

verus! {


/// Whether `value` can be held as a frequency.
pub open spec fn fits_i32(value: int) -> bool {
    i32::MIN <= value <= i32::MAX
}

/// Sum of the changes.
pub open spec fn sum(deltas: Seq<i32>) -> int
    decreases deltas.len(),
{
    if deltas.len() == 0 {
        0
    } else {
        sum(deltas.drop_last()) + deltas.last()
    }
}

/// The frequency after `steps` changes, where the changes are taken in order
/// and the first follows the last.
pub open spec fn frequency_after(deltas: Seq<i32>, steps: nat) -> int
    decreases steps,
{
    if steps == 0 {
        0
    } else {
        frequency_after(deltas, (steps - 1) as nat) + deltas[(steps - 1) % (deltas.len() as int)]
    }
}

/// Whether the frequency after `steps` changes is one that it had after fewer
/// changes, or at the start.
pub open spec fn revisits(deltas: Seq<i32>, steps: nat) -> bool {
    exists|earlier: nat|
        earlier < steps && #[trigger] frequency_after(deltas, earlier) == frequency_after(
            deltas,
            steps,
        )
}

/// Whether the search ends with change number `steps`: the frequency leaves
/// the range of its type there, or comes back to an earlier value.
pub open spec fn ends_at(deltas: Seq<i32>, steps: nat) -> bool {
    steps > 0 && (!fits_i32(frequency_after(deltas, steps)) || revisits(deltas, steps))
}

/// Whether change number `steps` is the first with which the search ends.
pub open spec fn is_first_end(deltas: Seq<i32>, steps: nat) -> bool {
    ends_at(deltas, steps) && forall|earlier: nat|
        earlier < steps ==> !#[trigger] ends_at(deltas, earlier)
}

/// The number of the first change with which the search ends, if there is
/// one.
pub open spec fn first_end(deltas: Seq<i32>) -> Option<nat> {
    if exists|steps: nat| is_first_end(deltas, steps) {
        Some(choose|steps: nat| is_first_end(deltas, steps))
    } else {
        None
    }
}

/// Where a search stands.
#[derive(Clone, Copy, Debug, PartialEq, Eq, Structural)]
pub enum Scan {
    /// No frequency was reached twice so far.
    Scanning,
    /// This frequency was reached for the second time.
    Found(i32),
    /// The next frequency is out of the range of its type.
    Overflow,
}

/// What a search through `deltas` comes to. With `wrap` the changes are
/// applied over and over; without it the search gives up after the last
/// change. A search through no changes finds nothing.
pub open spec fn search_of(deltas: Seq<i32>, wrap: bool) -> Scan {
    match first_end(deltas) {
        Some(steps) => if deltas.len() > 0 && (wrap || steps <= deltas.len()) {
            if fits_i32(frequency_after(deltas, steps)) {
                Scan::Found(frequency_after(deltas, steps) as i32)
            } else {
                Scan::Overflow
            }
        } else {
            Scan::Scanning
        },
        None => Scan::Scanning,
    }
}

/// The frequencies that a search has passed through after `steps` changes,
/// the start included.
spec fn trail(deltas: Seq<i32>, steps: nat) -> Seq<i32> {
    Seq::new(steps + 1, |i: int| frequency_after(deltas, i as nat) as i32)
}

/// Only one change can be the first with which the search ends.
pub proof fn lemma_first_end_unique(deltas: Seq<i32>, a: nat, b: nat)
    requires
        is_first_end(deltas, a),
        is_first_end(deltas, b),
    ensures
        a == b,
{
}

/// The first end that was found is the one that `first_end` names.
pub proof fn lemma_first_end_is(deltas: Seq<i32>, steps: nat)
    requires
        is_first_end(deltas, steps),
    ensures
        first_end(deltas) == Some(steps),
{
    let chosen = choose|k: nat| is_first_end(deltas, k);
    lemma_first_end_unique(deltas, chosen, steps);
}

/// What the changes listed in `text` add up to.
pub open spec fn calibration_of(text: Seq<char>) -> Result<i32, InputError> {
    match failure_of(delta_readings(text)) {
        Some(kind) => Err(InputError::Parse { line: deltas_of(text).len() as usize, kind }),
        None => if fits_i32(sum(deltas_of(text))) {
            Ok(sum(deltas_of(text)) as i32)
        } else {
            Err(InputError::Overflow)
        },
    }
}

/// The first frequency reached twice under the changes listed in `text`. A
/// line that is no change ends the search where the search gets to it: the
/// lines before it are searched once.
pub open spec fn first_revisit_of(text: Seq<char>) -> Result<i32, InputError> {
    let failure = failure_of(delta_readings(text));
    match search_of(deltas_of(text), failure is None) {
        Scan::Found(again) => Ok(again),
        Scan::Overflow => Err(InputError::Overflow),
        Scan::Scanning => match failure {
            Some(kind) => Err(InputError::Parse { line: deltas_of(text).len() as usize, kind }),
            None => Err(InputError::Endless),
        },
    }
}

/// Within the first pass the frequency is the sum of the changes applied so
/// far; after the last of them it is the sum of all.
pub proof fn lemma_first_pass(deltas: Seq<i32>, steps: nat)
    requires
        steps <= deltas.len(),
    ensures
        frequency_after(deltas, steps) == sum(deltas.take(steps as int)),
        steps == deltas.len() ==> frequency_after(deltas, steps) == sum(deltas),
    decreases steps,
{
    if steps > 0 {
        lemma_first_pass(deltas, (steps - 1) as nat);
        lemma_small_mod((steps - 1) as nat, deltas.len());
        assert(deltas.take(steps as int).drop_last() =~= deltas.take(steps - 1));
    }
    if steps == deltas.len() {
        assert(deltas.take(steps as int) =~= deltas);
    }
}

/// Taking one change out of a list takes it out of the sum.
proof fn lemma_sum_remove(deltas: Seq<i32>, i: int)
    requires
        0 <= i < deltas.len(),
    ensures
        sum(deltas) == sum(deltas.remove(i)) + deltas[i],
    decreases deltas.len(),
{
    if i < deltas.len() - 1 {
        assert(deltas.remove(i).drop_last() =~= deltas.drop_last().remove(i));
        lemma_sum_remove(deltas.drop_last(), i);
    }
}

/// The sum of the changes does not depend on their order: two lists that
/// hold the same changes, each as often as the other, have the same sum.
pub proof fn lemma_sum_any_order(a: Seq<i32>, b: Seq<i32>)
    requires
        a.to_multiset() == b.to_multiset(),
    ensures
        sum(a) == sum(b),
    decreases a.len(),
{
    broadcast use vstd::seq_lib::group_to_multiset_ensures;

    assert(a.len() == b.len()) by {
        assert(b.len() == b.to_multiset().len());
    }
    if a.len() > 0 {
        let last = a.last();
        let front = a.drop_last();
        assert(a =~= front.push(last));
        assert(b.to_multiset().count(last) > 0);
        let i = choose|i: int| 0 <= i < b.len() && b[i] == last;
        assert(front.to_multiset() =~= b.remove(i).to_multiset());
        lemma_sum_any_order(front, b.remove(i));
        lemma_sum_remove(b, i);
    }
}

/// Where the search ends with some change, one change is the first with
/// which it ends.
proof fn lemma_least_end(deltas: Seq<i32>, steps: nat)
    requires
        ends_at(deltas, steps),
    ensures
        first_end(deltas) is Some,
        first_end(deltas)->Some_0 <= steps,
    decreases steps,
{
    if forall|earlier: nat| earlier < steps ==> !#[trigger] ends_at(deltas, earlier) {
        lemma_first_end_is(deltas, steps);
    } else {
        let earlier = choose|earlier: nat| earlier < steps && #[trigger] ends_at(deltas, earlier);
        lemma_least_end(deltas, earlier);
    }
}

/// A search that starts over after the last change always ends: a frequency
/// has only so many values, so it comes back to one or leaves their range
/// with one of the first 2^32 changes.
pub proof fn lemma_search_ends(deltas: Seq<i32>)
    requires
        deltas.len() > 0,
    ensures
        first_end(deltas) is Some,
        first_end(deltas)->Some_0 <= 0x1_0000_0000,
        search_of(deltas, true) != Scan::Scanning,
{
    let limit: nat = 0x1_0000_0000;
    if exists|steps: nat| steps <= limit && #[trigger] ends_at(deltas, steps) {
        let steps = choose|steps: nat| steps <= limit && #[trigger] ends_at(deltas, steps);
        lemma_least_end(deltas, steps);
    } else {
        let passed = trail(deltas, limit);
        assert forall|i: int, j: int|
            0 <= i < passed.len() && 0 <= j < passed.len() && i != j implies passed[i]
            != passed[j] by {
            let (low, high) = if i < j {
                (i as nat, j as nat)
            } else {
                (j as nat, i as nat)
            };
            assert(!ends_at(deltas, high));
            assert(low == 0 || !ends_at(deltas, low));
        }
        lemma_distinct_bounded(passed);
    }
}

/// The search through the changes of a text would go on for ever, and so has
/// nothing to report, exactly where the text is empty. With any line in the
/// text it ends: with a frequency, with a line that is no change, or with a
/// frequency that does not fit.
pub proof fn lemma_endless_without_lines(text: Seq<char>)
    ensures
        first_revisit_of(text) == Err::<i32, InputError>(InputError::Endless) <==> text.len() == 0,
{
    if text.len() > 0 && failure_of(delta_readings(text)) is None {
        lemma_search_ends(deltas_of(text));
    }
}

/// The running frequency of a search together with the frequencies that it
/// has passed through.
pub struct Scanner {
    seen: HashSet<i32>,
    frequency: i32,
    visited: Ghost<Seq<i32>>,
}

impl Scanner {
    /// The frequencies passed through so far, in order; the last one is the
    /// running frequency.
    pub closed spec fn visited(&self) -> Seq<i32> {
        self.visited@
    }

    /// The scanner remembers each frequency that it passed through, and has
    /// passed through none twice.
    pub closed spec fn wf(&self) -> bool {
        &&& self.visited@.len() > 0
        &&& self.visited@.last() == self.frequency
        &&& self.visited@.no_duplicates()
        &&& self.seen@ == self.visited@.to_set()
    }

    /// A scanner at the start: the frequency is zero, and zero counts as
    /// passed through.
    pub fn new() -> (scanner: Self)
        ensures
            scanner.wf(),
            scanner.visited() == seq![0i32],
    {
        let mut seen: HashSet<i32> = HashSet::new();
        seen.insert(0);
        let ghost start = seq![0i32];
        let scanner = Scanner { seen, frequency: 0, visited: Ghost(start) };
        assert(scanner.seen@ =~= scanner.visited@.to_set()) by {
            assert(start[0] == 0i32);
        }
        scanner
    }

    /// The running frequency.
    pub fn frequency(&self) -> (frequency: i32)
        requires
            self.wf(),
        ensures
            frequency == self.visited().last(),
    {
        self.frequency
    }

    /// Applies one change. The scanner moves on to the new frequency only
    /// where that frequency fits and is new; else it stays as it was.
    pub fn apply(&mut self, delta: i32) -> (scan: Scan)
        requires
            old(self).wf(),
        ensures
            final(self).wf(),
            match scan {
                Scan::Scanning => {
                    &&& fits_i32(old(self).visited().last() + delta)
                    &&& !old(self).visited().contains((old(self).visited().last() + delta) as i32)
                    &&& final(self).visited() == old(self).visited().push(
                        (old(self).visited().last() + delta) as i32,
                    )
                },
                Scan::Found(again) => {
                    &&& again == old(self).visited().last() + delta
                    &&& old(self).visited().contains(again)
                    &&& final(self).visited() == old(self).visited()
                },
                Scan::Overflow => {
                    &&& !fits_i32(old(self).visited().last() + delta)
                    &&& final(self).visited() == old(self).visited()
                },
            },
    {
        match self.frequency.checked_add(delta) {
            None => Scan::Overflow,
            Some(next) => {
                if self.seen.contains(&next) {
                    Scan::Found(next)
                } else {
                    let ghost before = self.visited@;
                    self.seen.insert(next);
                    self.frequency = next;
                    proof {
                        self.visited@ = before.push(next);
                        before.lemma_push_to_set_commute(next);
                    }
                    Scan::Scanning
                }
            },
        }
    }

    /// A scanner has passed through at most as many frequencies as its type
    /// has values.
    pub proof fn lemma_visited_bounded(&self)
        requires
            self.wf(),
        ensures
            1 <= self.visited().len() <= 0x1_0000_0000,
    {
        lemma_distinct_bounded(self.visited@);
    }
}

/// A list that holds no `i32` twice is at most as long as `i32` has values.
proof fn lemma_distinct_bounded(values: Seq<i32>)
    requires
        values.no_duplicates(),
    ensures
        values.len() <= 0x1_0000_0000,
{
    let all = set_int_range(i32::MIN as int, i32::MAX as int + 1);
    let widen = |v: i32| v as int;
    let held = values.to_set();
    lemma_int_range(i32::MIN as int, i32::MAX as int + 1);
    values.unique_seq_to_set();
    lemma_len_subset(held.map(widen), all);
    lemma_map_size(held, held.map(widen), widen);
}

/// While the frequency has kept to its type, it comes back to an earlier
/// value with the next change exactly where its next value is on the trail.
proof fn lemma_on_trail(deltas: Seq<i32>, steps: nat)
    requires
        forall|k: nat| k <= steps + 1 ==> fits_i32(#[trigger] frequency_after(deltas, k)),
    ensures
        revisits(deltas, steps + 1) <==> trail(deltas, steps).contains(
            frequency_after(deltas, steps + 1) as i32,
        ),
{
    let passed = trail(deltas, steps);
    let next = frequency_after(deltas, steps + 1);
    if passed.contains(next as i32) {
        let at = choose|at: int| 0 <= at < passed.len() && passed[at] == next as i32;
        assert(frequency_after(deltas, at as nat) == next);
    }
    if revisits(deltas, steps + 1) {
        let earlier = choose|earlier: nat|
            earlier < steps + 1 && #[trigger] frequency_after(deltas, earlier) == next;
        assert(passed[earlier as int] == next as i32);
    }
}

/// Searches for the first frequency that is reached twice while the changes
/// are applied in order, from a frequency of zero. With `wrap` the first
/// change follows the last, over and over; without it the search gives up
/// after the last change.
pub fn search(deltas: &[i32], wrap: bool) -> (scan: Scan)
    ensures
        scan == search_of(deltas@, wrap),
{
    let n: usize = deltas.len();
    let mut scanner = Scanner::new();
    let ghost mut steps: nat = 0;
    let ghost mut passes: nat = 0;
    loop
        invariant
            n == deltas.len(),
            scanner.wf(),
            scanner.visited() == trail(deltas@, steps),
            steps == passes * n,
            !wrap ==> passes == 0,
            forall|k: nat| k <= steps ==> fits_i32(#[trigger] frequency_after(deltas@, k)),
            forall|k: nat| k <= steps ==> !#[trigger] ends_at(deltas@, k),
        decreases 0x1_0000_0000 - scanner.visited().len(),
    {
        let ghost size = scanner.visited().len();
        let mut i: usize = 0;
        while i < n
            invariant
                i <= n,
                n == deltas.len(),
                scanner.wf(),
                scanner.visited() == trail(deltas@, steps),
                steps == passes * n + i,
                scanner.visited().len() == size + i,
                !wrap ==> passes == 0,
                forall|k: nat| k <= steps ==> fits_i32(#[trigger] frequency_after(deltas@, k)),
                forall|k: nat| k <= steps ==> !#[trigger] ends_at(deltas@, k),
            decreases n - i,
        {
            proof {
                lemma_fundamental_div_mod_converse(steps as int, n as int, passes as int, i as int);
                if fits_i32(frequency_after(deltas@, steps + 1)) {
                    lemma_on_trail(deltas@, steps);
                }
            }
            match scanner.apply(deltas[i]) {
                Scan::Found(again) => {
                    proof {
                        lemma_first_end_is(deltas@, steps + 1);
                    }
                    return Scan::Found(again);
                },
                Scan::Overflow => {
                    proof {
                        lemma_first_end_is(deltas@, steps + 1);
                    }
                    return Scan::Overflow;
                },
                Scan::Scanning => {},
            }
            proof {
                steps = steps + 1;
            }
            i = i + 1;
        }
        if !wrap || n == 0 {
            return Scan::Scanning;
        }
        proof {
            scanner.lemma_visited_bounded();
            assert((passes + 1) * n == passes * n + n) by (nonlinear_arith);
            passes = passes + 1;
        }
    }
}

/// The frequency after all changes were applied once; nothing where it does
/// not fit.
pub fn total(deltas: &[i32]) -> (total: Option<i32>)
    ensures
        total == if fits_i32(sum(deltas@)) {
            Some(sum(deltas@) as i32)
        } else {
            None
        },
{
    let mut frequency: i128 = 0;
    let mut i: usize = 0;
    while i < deltas.len()
        invariant
            i <= deltas.len(),
            frequency == sum(deltas@.take(i as int)),
            -0x8000_0000 * i <= frequency <= 0x8000_0000 * i,
        decreases deltas.len() - i,
    {
        assert(deltas@.take(i + 1).drop_last() =~= deltas@.take(i as int));
        frequency = frequency + deltas[i] as i128;
        i = i + 1;
    }
    assert(deltas@.take(i as int) =~= deltas@);
    if frequency < i32::MIN as i128 || frequency > i32::MAX as i128 {
        None
    } else {
        Some(frequency as i32)
    }
}

/// The frequency after the changes listed in `input`, one on each line, were
/// applied once.
pub fn calibrate(input: &String) -> (frequency: Result<i32, InputError>)
    ensures
        frequency == calibration_of(input@),
{
    let (deltas, failure) = read_deltas(input.as_str());
    match failure {
        Some(kind) => Err(InputError::Parse { line: deltas.len(), kind }),
        None => match total(deltas.as_slice()) {
            Some(frequency) => Ok(frequency),
            None => Err(InputError::Overflow),
        },
    }
}

/// The first frequency that is reached twice while the changes listed in
/// `input`, one on each line, are applied over and over.
pub fn calibrate_once(input: &String) -> (frequency: Result<i32, InputError>)
    ensures
        frequency == first_revisit_of(input@),
{
    let (deltas, failure) = read_deltas(input.as_str());
    match search(deltas.as_slice(), failure.is_none()) {
        Scan::Found(again) => Ok(again),
        Scan::Overflow => Err(InputError::Overflow),
        Scan::Scanning => match failure {
            Some(kind) => Err(InputError::Parse { line: deltas.len(), kind }),
            None => Err(InputError::Endless),
        },
    }
}

} // verus!
