//! Two solvers over lists of integers, one integer on each line of a text.
//!
//! [`fuel`] counts the fuel that a list of module masses requires, by the
//! masses alone and together with the fuel that the fuel requires.
//! [`frequency`] follows a frequency through a list of signed changes: to
//! where it stands after the last change, and to the first value that it
//! takes twice when the list is gone through over and over.
//!
//! [`text`] says what the lines of a text are, [`literal`] what an integer
//! literal is, and [`input`] reads a text as a list of numbers.

pub mod frequency;
pub mod fuel;
pub mod input;
pub mod literal;
pub mod text;
