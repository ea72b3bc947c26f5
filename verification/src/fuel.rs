//! Fuel needed to launch modules of given mass.
//!
//! A mass needs a third of itself in fuel, rounded down, less two. Fuel has
//! mass too: the refined count adds the fuel that the fuel needs, and so on
//! for as long as the amounts stay positive.

use crate::input::{failure_of, mass_readings, masses_of, read_masses, InputError};
use vstd::prelude::*;

verus! {

/// Fuel that a mass requires by itself. It is negative for masses below six.
pub open spec fn fuel_for(mass: int) -> int {
    mass / 3 - 2
}

/// Fuel that a mass requires together with the fuel for that fuel: the sum of
/// `fuel_for(mass)`, `fuel_for(fuel_for(mass))` and so on, up to the first
/// member that is not positive.
pub open spec fn total_fuel_for(mass: int) -> int
    decreases mass,
{
    if fuel_for(mass) <= 0 {
        0
    } else {
        fuel_for(mass) + total_fuel_for(fuel_for(mass))
    }
}

/// Sum of the fuel that each mass requires by itself.
pub open spec fn simple_sum(masses: Seq<usize>) -> int
    decreases masses.len(),
{
    if masses.len() == 0 {
        0
    } else {
        simple_sum(masses.drop_last()) + fuel_for(masses.last() as int)
    }
}

/// Sum of the fuel that each mass requires together with the fuel for it.
pub open spec fn refined_sum(masses: Seq<usize>) -> int
    decreases masses.len(),
{
    if masses.len() == 0 {
        0
    } else {
        refined_sum(masses.drop_last()) + total_fuel_for(masses.last() as int)
    }
}

/// Whether `amount` can be handed out as an `isize`.
pub open spec fn fits_isize(amount: int) -> bool {
    isize::MIN <= amount <= isize::MAX
}

/// What the masses listed in `text` require by themselves.
pub open spec fn consumption_of(text: Seq<char>) -> Result<isize, InputError> {
    match failure_of(mass_readings(text)) {
        Some(kind) => Err(InputError::Parse { line: masses_of(text).len() as usize, kind }),
        None => if fits_isize(simple_sum(masses_of(text))) {
            Ok(simple_sum(masses_of(text)) as isize)
        } else {
            Err(InputError::Overflow)
        },
    }
}

/// What the masses listed in `text` require together with the fuel for the
/// fuel.
pub open spec fn refined_consumption_of(text: Seq<char>) -> Result<isize, InputError> {
    match failure_of(mass_readings(text)) {
        Some(kind) => Err(InputError::Parse { line: masses_of(text).len() as usize, kind }),
        None => if fits_isize(refined_sum(masses_of(text))) {
            Ok(refined_sum(masses_of(text)) as isize)
        } else {
            Err(InputError::Overflow)
        },
    }
}

/// The amounts of fuel in the chain of a mass go down strictly: fuel needs
/// less fuel than it weighs.
pub proof fn lemma_fuel_decreases(mass: int)
    requires
        mass >= 0,
    ensures
        fuel_for(mass) < mass,
        fuel_for(mass) >= -2,
{
}

/// Fuel with the fuel for it is never negative, and comes to at most half of
/// the mass.
pub proof fn lemma_total_fuel_bounds(mass: int)
    ensures
        0 <= total_fuel_for(mass),
        mass >= 0 ==> total_fuel_for(mass) <= mass / 2,
    decreases mass,
{
    if fuel_for(mass) > 0 {
        lemma_total_fuel_bounds(fuel_for(mass));
    }
}

/// Fuel that a module of the given mass requires by itself.
pub fn simple_fuel(mass: usize) -> (fuel: isize)
    ensures
        fuel == fuel_for(mass as int),
{
    (mass / 3) as isize - 2
}

/// Fuel that a mass requires together with the fuel for that fuel. A negative
/// mass requires none.
pub fn calculate(mass: isize) -> (total: isize)
    ensures
        total == total_fuel_for(mass as int),
    decreases mass + 3,
{
    if mass < 0 {
        return 0;
    }
    let fuel: isize = mass / 3 - 2;
    let mut total: isize = 0;
    if fuel > 0 {
        total = total + fuel;
    }
    proof {
        lemma_total_fuel_bounds(fuel as int);
    }
    total = total + calculate(fuel);
    total
}

/// Fuel that a module of the given mass requires together with the fuel for
/// that fuel.
pub fn refined_fuel(mass: usize) -> (total: isize)
    ensures
        total == total_fuel_for(mass as int),
{
    let fuel: isize = simple_fuel(mass);
    let mut total: isize = 0;
    if fuel > 0 {
        total = total + fuel;
    }
    proof {
        lemma_total_fuel_bounds(fuel as int);
    }
    total = total + calculate(fuel);
    total
}

/// Fuel that the modules require by themselves, all told; nothing where the
/// sum does not fit.
pub fn simple_total(masses: &[usize]) -> (total: Option<isize>)
    ensures
        total == if fits_isize(simple_sum(masses@)) {
            Some(simple_sum(masses@) as isize)
        } else {
            None
        },
{
    let mut sum: i128 = 0;
    let mut i: usize = 0;
    while i < masses.len()
        invariant
            i <= masses.len(),
            sum == simple_sum(masses@.take(i as int)),
            -0x8000_0000_0000_0000 * i <= sum <= 0x8000_0000_0000_0000 * i,
        decreases masses.len() - i,
    {
        assert(masses@.take(i + 1).drop_last() =~= masses@.take(i as int));
        sum = sum + simple_fuel(masses[i]) as i128;
        i = i + 1;
    }
    assert(masses@.take(i as int) =~= masses@);
    if sum < isize::MIN as i128 || sum > isize::MAX as i128 {
        None
    } else {
        Some(sum as isize)
    }
}

/// Fuel that the modules require together with the fuel for the fuel, all
/// told; nothing where the sum does not fit.
pub fn refined_total(masses: &[usize]) -> (total: Option<isize>)
    ensures
        total == if fits_isize(refined_sum(masses@)) {
            Some(refined_sum(masses@) as isize)
        } else {
            None
        },
{
    let mut sum: i128 = 0;
    let mut i: usize = 0;
    while i < masses.len()
        invariant
            i <= masses.len(),
            sum == refined_sum(masses@.take(i as int)),
            0 <= sum <= 0x8000_0000_0000_0000 * i,
        decreases masses.len() - i,
    {
        assert(masses@.take(i + 1).drop_last() =~= masses@.take(i as int));
        proof {
            lemma_total_fuel_bounds(masses@[i as int] as int);
        }
        sum = sum + refined_fuel(masses[i]) as i128;
        i = i + 1;
    }
    assert(masses@.take(i as int) =~= masses@);
    if sum > isize::MAX as i128 {
        None
    } else {
        Some(sum as isize)
    }
}

/// Fuel that the modules listed in `input`, one mass on each line, require by
/// themselves.
pub fn consumption(input: &str) -> (total: Result<isize, InputError>)
    ensures
        total == consumption_of(input@),
{
    let (masses, failure) = read_masses(input);
    match failure {
        Some(kind) => Err(InputError::Parse { line: masses.len(), kind }),
        None => match simple_total(masses.as_slice()) {
            Some(total) => Ok(total),
            None => Err(InputError::Overflow),
        },
    }
}

/// Fuel that the modules listed in `input`, one mass on each line, require
/// together with the fuel for the fuel.
pub fn refined_consumption(input: &str) -> (total: Result<isize, InputError>)
    ensures
        total == refined_consumption_of(input@),
{
    let (masses, failure) = read_masses(input);
    match failure {
        Some(kind) => Err(InputError::Parse { line: masses.len(), kind }),
        None => match refined_total(masses.as_slice()) {
            Some(total) => Ok(total),
            None => Err(InputError::Overflow),
        },
    }
}

} // verus!
